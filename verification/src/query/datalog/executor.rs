//! Execution of Datalog commands: transactions and retractions against the
//! fact storage, rule registration, and queries (pattern joins, disjunction,
//! negation, expression clauses, aggregation and projection), with rules
//! evaluated by strata.
use vstd::prelude::*;
use crate::graph::types::{Fact, Value, ValueV, VALID_TIME_FOREVER, clone_facts, value_eq};
use crate::graph::storage::{
    FactStorage, TransactOptions, TxId, as_of_prefix, assertion_record, counter_exhausted_error, net_asserted,
    net_asserted_facts, retraction_record, tx_id_now, lemma_as_of_members, lemma_net_asserted_members,
};
use crate::ids::EntityId;
use crate::query::datalog::bindings::{Bindings, bindings_view, contains_bindings, name_set, names_contain};
use crate::query::datalog::evaluator::{
    Outcome, StratifiedEvaluator, extends_with_assertions, names_of, invocation_error, body_rows_exist, evaluate_not_join_checked, invocation_pattern, not_join_holds, rows_for, rule_invocation_to_pattern,
    subst_pattern, substitute_pattern, stratifiable, derived_from_heads, stratify_message, positive_model,
    no_negated_clauses, all_assertions, lemma_net_asserted_asserted, stratified_model,
};
use crate::query::datalog::expr::{apply_expr_clauses_checked, expr_clauses_rows};
use crate::query::datalog::matcher::{BindingV, PatternMatcher, fact_triples, join_fold, resolve_component};
use crate::query::datalog::functions::{FunctionRegistry, builtin_aggregates, aggregate_overflows, apply_builtin_aggregate_checked, refs_view, spec_aggregate};
use crate::query::datalog::matcher::{
    Triple, edn_to_entity_id, edn_to_value, edn_to_value_error, fact_triple, edn_debug_text, spec_edn_to_value,
    spec_entity_id,
};
use crate::query::datalog::rules::{RuleRegistry, with_rule};
use crate::query::datalog::window::{apply_window_functions, spec_window, win_key, win_key_exec};
use crate::query::datalog::optimizer::{plan_patterns, planned_patterns};
use crate::query::datalog::types::{
    AggFunc, AsOf, ClauseV, DatalogCommand, FindSpec, FindSpecV, InvocationV, agg_name, clause_patterns, clause_preds,
    clauses_invocations, find_display, find_specs_view, invocations_view, top_invocations, DatalogQuery, EdnV, EdnValue, Pattern, PatternV, Rule, RuleV, Transaction,
    TransactionV, ValidAt, WhereClause, clause_seq_view, is_pseudo_attr, pseudo_attr_name, clauses_use_pseudo, clauses_use_per_fact_pseudo_attr, branch_seq_view, edn_seq_view, patterns_view,
};
use crate::text::{concat2, contains_chars, contains_seq, nat_text, str_chars, to_owned_string, usize_to_string};

verus! {

/// Result of executing a Datalog command.
#[derive(Debug, PartialEq)]
pub enum QueryResult {
    /// Transaction completed successfully with TX ID
    Transacted(TxId),
    /// Retraction completed successfully with TX ID
    Retracted(TxId),
    /// Query results: the column headers and one row of values per result
    QueryResults { vars: Vec<String>, results: Vec<Vec<Value>> },
    /// A command with nothing to report (a rule definition)
    Done,
}

/// A fact of a transaction as it will be stored: entity, attribute, value,
/// and its own valid-time options.
pub type TxTuple = (u128, Seq<char>, ValueV, Option<TransactOptions>);

/// The valid-time options a pattern carries, if any.
pub open spec fn pattern_opts(p: PatternV) -> Option<TransactOptions> {
    if p.valid_from is Some || p.valid_to is Some {
        Some(TransactOptions { valid_from: p.valid_from, valid_to: p.valid_to })
    } else {
        None
    }
}

/// The message when a transaction or retraction names a pseudo-attribute.
pub open spec fn pseudo_attr_tx_error() -> Seq<char> {
    "Cannot transact a pseudo-attribute"@
}

/// The stored form of a transacted pattern, or why it cannot be stored: the
/// entity must be a keyword or UUID, the attribute a keyword that is not a
/// temporal pseudo-attribute, and the value convertible.
pub open spec fn tx_tuple(p: PatternV) -> Result<TxTuple, Seq<char>> {
    match spec_entity_id(p.entity) {
        None => Err("Invalid entity: "@ + ("Expected keyword or UUID for entity, got "@ + edn_debug_text(p.entity))),
        Some(e) => match p.attribute {
            EdnV::Keyword(k) => if pseudo_attr_name(k) {
                Err(pseudo_attr_tx_error())
            } else {
                match spec_edn_to_value(p.value) {
                    None => Err("Invalid value: "@ + edn_to_value_error(p.value)),
                    Some(v) => Ok((e, k, v, pattern_opts(p))),
                }
            },
            _ => Err("Attribute must be a keyword"@),
        },
    }
}

/// The stored forms of the patterns, in order, or the first error.
pub open spec fn tx_tuples(ps: Seq<PatternV>) -> Result<Seq<TxTuple>, Seq<char>>
    decreases ps.len(),
{
    if ps.len() == 0 {
        Ok(seq![])
    } else {
        match tx_tuples(ps.drop_last()) {
            Err(m) => Err(m),
            Ok(ts) => match tx_tuple(ps.last()) {
                Err(m) => Err(m),
                Ok(t) => Ok(ts.push(t)),
            },
        }
    }
}

/// The transaction-level valid-time options, when any bound is given.
pub open spec fn tx_options(t: TransactionV) -> Option<TransactOptions> {
    if t.valid_from is Some || t.valid_to is Some {
        Some(TransactOptions { valid_from: t.valid_from, valid_to: t.valid_to })
    } else {
        None
    }
}

/// What a record says: triple, transaction id and count, valid time, and
/// whether it asserts.
pub type RecordShape = (Triple, u64, u64, i64, i64, bool);

/// The shape of a record.
pub open spec fn shape(f: Fact) -> RecordShape {
    (fact_triple(f), f.tx_id, f.tx_count, f.valid_from, f.valid_to, f.asserted)
}

/// The shapes of the records, in order.
pub open spec fn shapes(fs: Seq<Fact>) -> Seq<RecordShape> {
    fs.map_values(|f: Fact| shape(f))
}

/// The shape of the assertion recorded for a transacted fact: its own
/// options, else the transaction's, decide its valid time.
pub open spec fn assertion_shape(t: TxTuple, tx_opts: Option<TransactOptions>, tx_id: u64, count: u64) -> RecordShape {
    let o = if t.3 is Some { t.3 } else { tx_opts };
    (
        (t.0, t.1, t.2),
        tx_id,
        count,
        match o {
            Some(x) => match x.valid_from {
                Some(f) => f,
                None => tx_id as i64,
            },
            None => tx_id as i64,
        },
        match o {
            Some(x) => match x.valid_to {
                Some(v) => v,
                None => VALID_TIME_FOREVER,
            },
            None => VALID_TIME_FOREVER,
        },
        true,
    )
}

/// The shape of the retraction recorded for a retracted fact.
pub open spec fn retraction_shape(t: TxTuple, tx_id: u64, count: u64) -> RecordShape {
    ((t.0, t.1, t.2), tx_id, count, tx_id as i64, VALID_TIME_FOREVER, false)
}

/// The stored forms of a list of exec tuples.
pub open spec fn tuples_view(s: Seq<(EntityId, String, Value, Option<TransactOptions>)>) -> Seq<TxTuple> {
    s.map_values(|t: (EntityId, String, Value, Option<TransactOptions>)| (t.0, t.1@, t.2@, t.3))
}

/// Executor for Datalog commands: owns the fact storage, the rule registry
/// and the registry of aggregate functions.
pub struct DatalogExecutor {
    storage: FactStorage,
    rules: RuleRegistry,
    functions: FunctionRegistry,
}

/// Builds the stored form of each pattern of a transaction.
fn build_tuples(facts: &Vec<Pattern>) -> (r: Result<Vec<(EntityId, String, Value, Option<TransactOptions>)>, String>)
    ensures
        match tx_tuples(patterns_view(facts@)) {
            Ok(ts) => r matches Ok(v) && tuples_view(v@) == ts,
            Err(m) => r matches Err(x) && x@ == m,
        },
{
    let ghost pv = patterns_view(facts@);
    let mut out: Vec<(EntityId, String, Value, Option<TransactOptions>)> = Vec::new();
    let mut i: usize = 0;
    assert(tuples_view(out@) =~= Seq::<TxTuple>::empty());
    while i < facts.len()
        invariant
            i <= facts.len(),
            pv == patterns_view(facts@),
            tx_tuples(pv.subrange(0, i as int)) == Ok::<Seq<TxTuple>, Seq<char>>(tuples_view(out@)),
        decreases facts.len() - i,
    {
        let pattern = &facts[i];
        proof {
            assert(pv.subrange(0, i + 1).drop_last() =~= pv.subrange(0, i as int));
            assert(pv.subrange(0, i + 1).last() == pattern@);
        }
        let entity_id = match edn_to_entity_id(&pattern.entity) {
            Ok(e) => e,
            Err(e) => {
                proof { lemma_tx_tuples_err_stays(pv, i as int + 1); }
                return Err(concat2("Invalid entity: ", e.as_str()));
            },
        };
        let attribute = match &pattern.attribute {
            EdnValue::Keyword(k) => {
                if is_pseudo_attr(k.as_str()) {
                    proof { lemma_tx_tuples_err_stays(pv, i as int + 1); }
                    return Err(to_owned_string("Cannot transact a pseudo-attribute"));
                }
                k.clone()
            },
            _ => {
                proof { lemma_tx_tuples_err_stays(pv, i as int + 1); }
                return Err(to_owned_string("Attribute must be a keyword"));
            },
        };
        let value = match edn_to_value(&pattern.value) {
            Ok(v) => v,
            Err(e) => {
                proof { lemma_tx_tuples_err_stays(pv, i as int + 1); }
                return Err(concat2("Invalid value: ", e.as_str()));
            },
        };
        let per_fact_opts = if pattern.valid_from.is_some() || pattern.valid_to.is_some() {
            Some(TransactOptions::new(pattern.valid_from, pattern.valid_to))
        } else {
            None
        };
        let ghost before = tuples_view(out@);
        out.push((entity_id, attribute, value, per_fact_opts));
        assert(tuples_view(out@) =~= before.push((entity_id, attribute@, value@, per_fact_opts)));
        i = i + 1;
    }
    assert(pv.subrange(0, facts.len() as int) =~= pv);
    Ok(out)
}

proof fn lemma_tx_tuples_err_stays(ps: Seq<PatternV>, k: int)
    requires
        0 <= k <= ps.len(),
        tx_tuples(ps.subrange(0, k)) is Err,
    ensures
        tx_tuples(ps) == tx_tuples(ps.subrange(0, k)),
    decreases ps.len() - k,
{
    if k < ps.len() {
        assert(ps.subrange(0, k + 1).drop_last() =~= ps.subrange(0, k));
        lemma_tx_tuples_err_stays(ps, k + 1);
    } else {
        assert(ps.subrange(0, k) =~= ps);
    }
}

/// The message of a refused transaction.
pub open spec fn transaction_failed() -> Seq<char> {
    "Transaction failed: "@ + counter_exhausted_error()
}

/// The message of a refused retraction.
pub open spec fn retraction_failed() -> Seq<char> {
    "Retraction failed: "@ + counter_exhausted_error()
}

/// The facts a query sees: the records selected by `:as-of` (all by
/// default), their net-asserted view, then those valid at the `:valid-at`
/// time (at `now` by default; all with `:any-valid-time`).
pub open spec fn query_facts(records: Seq<Fact>, as_of: Option<AsOf>, valid_at: Option<ValidAt>, now: i64) -> Seq<Fact> {
    let tx = match as_of {
        Some(AsOf::Counter(n)) => as_of_prefix(records, Some(n), None, records.len() as int),
        Some(AsOf::Timestamp(t)) => as_of_prefix(records, None, Some(t), records.len() as int),
        None => records,
    };
    let asserted = net_asserted(tx);
    match valid_at {
        Some(ValidAt::Timestamp(t)) => valid_filter(asserted, t),
        Some(ValidAt::AnyValidTime) => asserted,
        None => valid_filter(asserted, now),
    }
}

/// The facts valid at time `t`: `valid_from <= t < valid_to`, in order.
pub open spec fn valid_filter(fs: Seq<Fact>, t: i64) -> Seq<Fact>
    decreases fs.len(),
{
    if fs.len() == 0 {
        seq![]
    } else if fs.last().valid_from <= t && t < fs.last().valid_to {
        valid_filter(fs.drop_last(), t).push(fs.last())
    } else {
        valid_filter(fs.drop_last(), t)
    }
}

/// Valid-time filtering keeps exactly the facts valid at `t`: those with
/// `valid_from <= t < valid_to`. A fact that becomes valid after `t`, or
/// stops being valid at or before it, is never kept.
pub proof fn lemma_valid_filter_exact(fs: Seq<Fact>, t: i64)
    ensures
        forall|f: Fact| #[trigger] valid_filter(fs, t).contains(f) <==> fs.contains(f) && f.valid_from <= t
            && t < f.valid_to,
        valid_filter(fs, t).len() <= fs.len(),
    decreases fs.len(),
{
    if fs.len() > 0 {
        let rest = fs.drop_last();
        lemma_valid_filter_exact(rest, t);
        assert forall|f: Fact| #[trigger] valid_filter(fs, t).contains(f) <==> fs.contains(f) && f.valid_from <= t
            && t < f.valid_to by {
            let cur = valid_filter(fs, t);
            let prev = valid_filter(rest, t);
            if cur.contains(f) {
                let m = choose|m: int| 0 <= m < cur.len() && cur[m] == f;
                if m < prev.len() {
                    assert(prev[m] == f);
                    assert(prev.contains(f));
                    let w = choose|w: int| 0 <= w < rest.len() && rest[w] == f;
                    assert(fs[w] == f);
                } else {
                    assert(f == fs.last());
                    assert(fs[fs.len() - 1] == f);
                }
            }
            if fs.contains(f) && f.valid_from <= t && t < f.valid_to {
                let w = choose|w: int| 0 <= w < fs.len() && fs[w] == f;
                if w < fs.len() - 1 {
                    assert(rest[w] == f);
                    assert(prev.contains(f));
                    let m = choose|m: int| 0 <= m < prev.len() && prev[m] == f;
                    assert(cur[m] == f);
                } else {
                    assert(cur[cur.len() - 1] == f);
                }
            }
        }
    }
}

/// The facts a query sees are asserted records of the log that are still
/// asserted in the selected state: an `:as-of` counter or time keeps only
/// records up to it, and a `:valid-at` time (the current time by default)
/// keeps only facts valid then (`valid_from <= t < valid_to`). Without
/// `:as-of`, every net-asserted fact valid at the `:valid-at` time is seen.
pub proof fn lemma_query_facts_time(records: Seq<Fact>, as_of: Option<AsOf>, valid_at: Option<ValidAt>, now: i64)
    ensures
        forall|f: Fact| #[trigger] query_facts(records, as_of, valid_at, now).contains(f) ==> {
            &&& records.contains(f)
            &&& f.asserted
            &&& (as_of matches Some(AsOf::Counter(n)) ==> f.tx_count <= n)
            &&& (as_of matches Some(AsOf::Timestamp(t)) ==> f.tx_id as int <= t)
            &&& (valid_at matches Some(ValidAt::Timestamp(t)) ==> f.valid_from <= t && t < f.valid_to)
            &&& (valid_at is None ==> f.valid_from <= now && now < f.valid_to)
        },
        as_of is None ==> forall|f: Fact, t: i64| net_asserted(records).contains(f) && f.valid_from <= t
            && t < f.valid_to ==> #[trigger] query_facts(records, as_of, Some(ValidAt::Timestamp(t)), now).contains(f),
{
    let tx = match as_of {
        Some(AsOf::Counter(n)) => as_of_prefix(records, Some(n), None, records.len() as int),
        Some(AsOf::Timestamp(t)) => as_of_prefix(records, None, Some(t), records.len() as int),
        None => records,
    };
    let asserted = net_asserted(tx);
    lemma_net_asserted_members(tx);
    lemma_as_of_members(records, None, None);
    match as_of {
        Some(AsOf::Counter(n)) => lemma_as_of_members(records, Some(n), None),
        Some(AsOf::Timestamp(t)) => lemma_as_of_members(records, None, Some(t)),
        None => {},
    }
    match valid_at {
        Some(ValidAt::Timestamp(t)) => lemma_valid_filter_exact(asserted, t),
        Some(ValidAt::AnyValidTime) => {},
        None => lemma_valid_filter_exact(asserted, now),
    }
    assert forall|f: Fact| #[trigger] query_facts(records, as_of, valid_at, now).contains(f) implies {
        &&& records.contains(f)
        &&& f.asserted
        &&& (as_of matches Some(AsOf::Counter(n)) ==> f.tx_count <= n)
        &&& (as_of matches Some(AsOf::Timestamp(t)) ==> f.tx_id as int <= t)
        &&& (valid_at matches Some(ValidAt::Timestamp(t)) ==> f.valid_from <= t && t < f.valid_to)
        &&& (valid_at is None ==> f.valid_from <= now && now < f.valid_to)
    } by {
        assert(asserted.contains(f));
        assert(tx.contains(f));
    }
    if as_of is None {
        assert forall|f: Fact, t: i64| net_asserted(records).contains(f) && f.valid_from <= t
            && t < f.valid_to implies #[trigger] query_facts(records, as_of, Some(ValidAt::Timestamp(t)), now).contains(f) by {
            lemma_valid_filter_exact(asserted, t);
        }
    }
}

fn valid_filter_exec(fs: Vec<Fact>, t: i64) -> (r: Vec<Fact>)
    ensures
        r@ == valid_filter(fs@, t),
{
    let mut out: Vec<Fact> = Vec::new();
    let mut i: usize = 0;
    while i < fs.len()
        invariant
            i <= fs.len(),
            out@ == valid_filter(fs@.subrange(0, i as int), t),
        decreases fs.len() - i,
    {
        assert(fs@.subrange(0, i + 1).drop_last() =~= fs@.subrange(0, i as int));
        if fs[i].valid_from <= t && t < fs[i].valid_to {
            out.push(fs[i].clone());
        }
        i = i + 1;
    }
    assert(fs@.subrange(0, fs.len() as int) =~= fs@);
    out
}

impl DatalogExecutor {
    /// The records of the storage.
    pub closed spec fn records(&self) -> Seq<Fact> {
        self.storage.records()
    }

    /// The storage's transaction counter.
    pub closed spec fn counter(&self) -> u64 {
        self.storage.counter()
    }

    /// The registered rules, by predicate.
    pub closed spec fn rule_groups(&self) -> Seq<(Seq<char>, Seq<RuleV>)> {
        self.rules.groups()
    }

    /// The registered aggregate functions.
    pub closed spec fn function_entries(&self) -> Seq<crate::query::datalog::functions::RegEntry> {
        self.functions.entries()
    }

    /// An executor over `storage` with no rules and the built-in aggregates.
    pub fn new(storage: FactStorage) -> (r: Self)
        ensures
            r.records() == storage.records(),
            r.counter() == storage.counter(),
            r.rule_groups() == Seq::<(Seq<char>, Seq<RuleV>)>::empty(),
            r.function_entries() == crate::query::datalog::functions::builtin_aggregates(),
    {
        DatalogExecutor { storage, rules: RuleRegistry::new(), functions: FunctionRegistry::with_builtins() }
    }

    /// An executor with the given rule registry and function registry.
    pub fn new_with_rules_and_functions(storage: FactStorage, rules: RuleRegistry, functions: FunctionRegistry) -> (r:
        Self)
        ensures
            r.records() == storage.records(),
            r.counter() == storage.counter(),
            r.rule_groups() == rules.groups(),
            r.function_entries() == functions.entries(),
    {
        DatalogExecutor { storage, rules, functions }
    }

    /// An executor with the given rule registry and the built-in aggregates.
    pub fn new_with_rules(storage: FactStorage, rules: RuleRegistry) -> (r: Self)
        ensures
            r.records() == storage.records(),
            r.counter() == storage.counter(),
            r.rule_groups() == rules.groups(),
            r.function_entries() == crate::query::datalog::functions::builtin_aggregates(),
    {
        Self::new_with_rules_and_functions(storage, rules, FunctionRegistry::with_builtins())
    }

    /// The underlying storage.
    pub fn storage(&self) -> (r: &FactStorage)
        ensures
            r.records() == self.records(),
            r.counter() == self.counter(),
    {
        &self.storage
    }

    /// The rule registry.
    pub fn rules(&self) -> (r: &RuleRegistry)
        ensures
            r.groups() == self.rule_groups(),
    {
        &self.rules
    }

    /// Execute a transact command: all facts in one transaction.
    fn execute_transact(&mut self, tx: Transaction) -> (r: Result<QueryResult, String>)
        ensures
            final(self).rule_groups() == old(self).rule_groups(),
            final(self).function_entries() == old(self).function_entries(),
            match tx_tuples(tx@.facts) {
                Err(m) => r matches Err(x) && x@ == m && final(self).records() == old(self).records()
                    && final(self).counter() == old(self).counter(),
                Ok(ts) => if old(self).counter() == u64::MAX {
                    r matches Err(x) && x@ == transaction_failed() && final(self).records() == old(self).records()
                        && final(self).counter() == old(self).counter()
                } else {
                    r matches Ok(QueryResult::Transacted(tx_id)) && final(self).counter() == old(self).counter() + 1
                        && shapes(final(self).records()) == shapes(old(self).records()) + Seq::new(
                        ts.len(),
                        |i: int| assertion_shape(ts[i], tx_options(tx@), tx_id, final(self).counter()),
                    )
                },
            },
    {
        // Transaction-level valid-time options (fallback when no per-fact override)
        let tx_opts = if tx.valid_from.is_some() || tx.valid_to.is_some() {
            Some(TransactOptions::new(tx.valid_from, tx.valid_to))
        } else {
            None
        };
        let fact_tuples = match build_tuples(&tx.facts) {
            Ok(v) => v,
            Err(e) => return Err(e),
        };
        let ghost tv = fact_tuples@;
        let ghost old_records = self.storage.records();
        match self.storage.transact_batch(fact_tuples, tx_opts) {
            Ok(tx_id) => {
                proof {
                    let n = tv.len();
                    let added = Seq::new(
                        n,
                        |i: int| assertion_record(
                            tv[i].0,
                            tv[i].1,
                            tv[i].2,
                            if tv[i].3 is Some { tv[i].3 } else { tx_opts },
                            tx_id,
                            self.storage.counter(),
                        ),
                    );
                    assert(tx_opts == tx_options(tx@));
                    assert(shapes(old_records + added) =~= shapes(old_records) + Seq::new(
                        n,
                        |i: int| assertion_shape(tuples_view(tv)[i], tx_options(tx@), tx_id, self.storage.counter()),
                    ));
                    assert(self.storage.records() == old_records + added);
                }
                Ok(QueryResult::Transacted(tx_id))
            },
            Err(e) => Err(concat2("Transaction failed: ", e.as_str())),
        }
    }

    /// Execute a retract command: all facts retracted in one transaction.
    fn execute_retract(&mut self, tx: Transaction) -> (r: Result<QueryResult, String>)
        ensures
            final(self).rule_groups() == old(self).rule_groups(),
            final(self).function_entries() == old(self).function_entries(),
            match tx_tuples(tx@.facts) {
                Err(m) => r matches Err(x) && x@ == m && final(self).records() == old(self).records()
                    && final(self).counter() == old(self).counter(),
                Ok(ts) => if old(self).counter() == u64::MAX {
                    r matches Err(x) && x@ == retraction_failed() && final(self).records() == old(self).records()
                        && final(self).counter() == old(self).counter()
                } else {
                    r matches Ok(QueryResult::Retracted(tx_id)) && final(self).counter() == old(self).counter() + 1
                        && shapes(final(self).records()) == shapes(old(self).records()) + Seq::new(
                        ts.len(),
                        |i: int| retraction_shape(ts[i], tx_id, final(self).counter()),
                    )
                },
            },
    {
        let full = match build_tuples(&tx.facts) {
            Ok(v) => v,
            Err(e) => return Err(e),
        };
        let ghost fv = tuples_view(full@);
        let mut fact_tuples: Vec<(EntityId, String, Value)> = Vec::new();
        let mut i: usize = 0;
        while i < full.len()
            invariant
                i <= full.len(),
                fv == tuples_view(full@),
                fact_tuples@.len() == i,
                forall|j: int| 0 <= j < i ==> (#[trigger] fact_tuples@[j]).0 == fv[j].0 && fact_tuples@[j].1@ == fv[j].1
                    && fact_tuples@[j].2@ == fv[j].2,
            decreases full.len() - i,
        {
            fact_tuples.push((full[i].0, full[i].1.clone(), full[i].2.clone()));
            i = i + 1;
        }
        let ghost tv = fact_tuples@;
        let ghost old_records = self.storage.records();
        match self.storage.retract(fact_tuples) {
            Ok(tx_id) => {
                proof {
                    let n = tv.len();
                    let added = Seq::new(
                        n,
                        |i: int| retraction_record(tv[i].0, tv[i].1, tv[i].2, tx_id, self.storage.counter()),
                    );
                    assert(shapes(old_records + added) =~= shapes(old_records) + Seq::new(
                        n,
                        |i: int| retraction_shape(fv[i], tx_id, self.storage.counter()),
                    ));
                }
                Ok(QueryResult::Retracted(tx_id))
            },
            Err(e) => Err(concat2("Retraction failed: ", e.as_str())),
        }
    }

    /// Build a filtered fact snapshot for a query's temporal constraints:
    /// `:as-of` selection, net-asserted view, then the valid-time filter
    /// (currently valid at `now` by default).
    pub fn filter_facts_for_query(&self, query: &DatalogQuery, now: i64) -> (r: Vec<Fact>)
        ensures
            r@ == query_facts(self.records(), query.as_of, query.valid_at, now),
    {
        let as_of = query.as_of;
        let valid_at = query.valid_at;
        // Step 1: transaction-time filter
        let tx_filtered = match as_of {
            Some(AsOf::Counter(n)) => self.storage.get_facts_as_of_parts(Some(n), None),
            Some(AsOf::Timestamp(t)) => self.storage.get_facts_as_of_parts(None, Some(t)),
            None => self.storage.get_all_facts(),
        };
        // Step 2: compute net-asserted view
        let asserted = net_asserted_facts(tx_filtered);
        // Step 3: valid-time filter
        match valid_at {
            Some(ValidAt::Timestamp(t)) => valid_filter_exec(asserted, t),
            Some(ValidAt::AnyValidTime) => asserted,
            None => valid_filter_exec(asserted, now),
        }
    }
}

/// The patterns of a `not` body in a query without rules: its patterns, with
/// the bound variables replaced.
pub open spec fn plain_not_patterns(body: Seq<ClauseV>, b: BindingV) -> Seq<PatternV>
    decreases body.len(),
{
    if body.len() == 0 {
        seq![]
    } else {
        let prev = plain_not_patterns(body.drop_last(), b);
        match body.last() {
            ClauseV::Pattern(p) => prev.push(subst_pattern(p, b)),
            _ => prev,
        }
    }
}

/// The patterns of a `not` body in a query with rules: its patterns with the
/// bound variables replaced, and its rule invocations (arity one or two) as
/// patterns over their arguments with the bound variables resolved.
pub open spec fn rule_not_patterns(body: Seq<ClauseV>, b: BindingV) -> Seq<PatternV>
    decreases body.len(),
{
    if body.len() == 0 {
        seq![]
    } else {
        let prev = rule_not_patterns(body.drop_last(), b);
        match body.last() {
            ClauseV::Pattern(p) => prev.push(subst_pattern(p, b)),
            ClauseV::RuleInvocation { predicate, args } => match invocation_pattern(
                predicate,
                args.map_values(|a: EdnV| resolve_component(a, b)),
            ) {
                Some(p) => prev.push(subst_pattern(p, b)),
                None => prev,
            },
            _ => prev,
        }
    }
}

/// Whether a negation clause rejects a row (`None` when an expression
/// overflows): a `not` body or a `not-join` body that has a satisfying row.
pub open spec fn not_check(c: ClauseV, row: BindingV, facts: Seq<Triple>, with_rules: bool) -> Option<bool> {
    match c {
        ClauseV::Not(body) => match rows_for(
            if with_rules {
                rule_not_patterns(body, row)
            } else {
                plain_not_patterns(body, row)
            },
            row,
            facts,
            body,
        ) {
            Some(rs) => Some(rs.len() > 0),
            None => None,
        },
        ClauseV::NotJoin { join_vars, clauses } => not_join_holds(join_vars, clauses, row, facts),
        _ => Some(false),
    }
}

/// Whether some `not` (or, with `joins`, `not-join`) clause of `cs` rejects
/// the row, checked in order up to the first rejection.
pub open spec fn nots_reject(cs: Seq<ClauseV>, row: BindingV, facts: Seq<Triple>, with_rules: bool, joins: bool) -> Option<
    bool,
>
    decreases cs.len(),
{
    if cs.len() == 0 {
        Some(false)
    } else {
        match nots_reject(cs.drop_last(), row, facts, with_rules, joins) {
            None => None,
            Some(true) => Some(true),
            Some(false) => if (joins && cs.last() is NotJoin) || (!joins && cs.last() is Not) {
                not_check(cs.last(), row, facts, with_rules)
            } else {
                Some(false)
            },
        }
    }
}

/// Whether a row is rejected: first the `not` clauses, then the `not-join`s.
pub open spec fn row_rejected(cs: Seq<ClauseV>, row: BindingV, facts: Seq<Triple>, with_rules: bool) -> Option<bool> {
    match nots_reject(cs, row, facts, with_rules, false) {
        None => None,
        Some(true) => Some(true),
        Some(false) => nots_reject(cs, row, facts, with_rules, true),
    }
}

/// The rows that no negation clause of `cs` rejects, in order.
pub open spec fn not_filter(cs: Seq<ClauseV>, rows: Seq<BindingV>, facts: Seq<Triple>, with_rules: bool) -> Option<
    Seq<BindingV>,
>
    decreases rows.len(),
{
    if rows.len() == 0 {
        Some(seq![])
    } else {
        match not_filter(cs, rows.drop_last(), facts, with_rules) {
            None => None,
            Some(kept) => match row_rejected(cs, rows.last(), facts, with_rules) {
                None => None,
                Some(true) => Some(kept),
                Some(false) => Some(kept.push(rows.last())),
            },
        }
    }
}

fn plain_not_patterns_exec(body: &Vec<WhereClause>, b: &Bindings) -> (r: Vec<Pattern>)
    ensures
        patterns_view(r@) == plain_not_patterns(clause_seq_view(body@), b@),
{
    let ghost cv = clause_seq_view(body@);
    let mut out: Vec<Pattern> = Vec::new();
    let mut i: usize = 0;
    assert(patterns_view(out@) =~= plain_not_patterns(cv.subrange(0, 0), b@));
    while i < body.len()
        invariant
            i <= body.len(),
            cv == clause_seq_view(body@),
            patterns_view(out@) == plain_not_patterns(cv.subrange(0, i as int), b@),
        decreases body.len() - i,
    {
        assert(cv.subrange(0, i + 1).drop_last() =~= cv.subrange(0, i as int));
        assert(cv.subrange(0, i + 1).last() == body@[i as int]@);
        let ghost before = patterns_view(out@);
        if let WhereClause::Pattern(p) = &body[i] {
            let q = substitute_pattern(p, b);
            out.push(q);
            assert(patterns_view(out@) =~= before.push(q@));
        }
        i = i + 1;
    }
    assert(cv.subrange(0, body.len() as int) =~= cv);
    out
}

fn rule_not_patterns_exec(body: &Vec<WhereClause>, b: &Bindings) -> (r: Vec<Pattern>)
    ensures
        patterns_view(r@) == rule_not_patterns(clause_seq_view(body@), b@),
{
    let ghost cv = clause_seq_view(body@);
    let mut out: Vec<Pattern> = Vec::new();
    let mut i: usize = 0;
    assert(patterns_view(out@) =~= rule_not_patterns(cv.subrange(0, 0), b@));
    while i < body.len()
        invariant
            i <= body.len(),
            cv == clause_seq_view(body@),
            patterns_view(out@) == rule_not_patterns(cv.subrange(0, i as int), b@),
        decreases body.len() - i,
    {
        assert(cv.subrange(0, i + 1).drop_last() =~= cv.subrange(0, i as int));
        assert(cv.subrange(0, i + 1).last() == body@[i as int]@);
        let ghost before = patterns_view(out@);
        match &body[i] {
            WhereClause::Pattern(p) => {
                let q = substitute_pattern(p, b);
                out.push(q);
                assert(patterns_view(out@) =~= before.push(q@));
            },
            WhereClause::RuleInvocation { predicate, args } => {
                let mut resolved: Vec<EdnValue> = Vec::new();
                let mut k: usize = 0;
                while k < args.len()
                    invariant
                        k <= args.len(),
                        resolved@.len() == k,
                        forall|j: int| 0 <= j < k ==> (#[trigger] resolved@[j])@ == resolve_component(
                            args@[j]@,
                            b@,
                        ),
                    decreases args.len() - k,
                {
                    resolved.push(resolve_arg(&args[k], b));
                    k = k + 1;
                }
                proof {
                    assert(edn_seq_view(resolved@) =~= edn_seq_view(args@).map_values(
                        |a: EdnV| resolve_component(a, b@),
                    ));
                }
                if let Ok(p) = rule_invocation_to_pattern(predicate.as_str(), resolved.as_slice()) {
                    let q = substitute_pattern(&p, b);
                    out.push(q);
                    assert(patterns_view(out@) =~= before.push(q@));
                }
            },
            _ => {},
        }
        i = i + 1;
    }
    assert(cv.subrange(0, body.len() as int) =~= cv);
    out
}

/// An argument with a bound variable replaced by its value's literal.
fn resolve_arg(a: &EdnValue, b: &Bindings) -> (r: EdnValue)
    ensures
        r@ == resolve_component(a@, b@),
{
    if let Some(var) = a.as_variable() {
        if let Some(v) = b.get(var) {
            return match v {
                Value::Keyword(k) => EdnValue::Keyword(k.clone()),
                Value::String(s) => EdnValue::String(s.clone()),
                Value::Integer(i) => EdnValue::Integer(*i),
                Value::Float(f) => EdnValue::Float(f.clone()),
                Value::Boolean(x) => EdnValue::Boolean(*x),
                Value::Ref(u) => EdnValue::Uuid(*u),
                Value::Null => EdnValue::Nil,
            };
        }
    }
    a.clone()
}

/// Whether one negation clause rejects the row (`None` on overflow).
fn not_check_exec(c: &WhereClause, row: &Bindings, facts: &Vec<Fact>, with_rules: bool) -> (r: Option<bool>)
    ensures
        r == not_check(c@, row@, fact_triples(facts@), with_rules),
{
    match c {
        WhereClause::Not(body) => {
            let ps = if with_rules {
                rule_not_patterns_exec(body, row)
            } else {
                plain_not_patterns_exec(body, row)
            };
            body_rows_exist(ps, body, row, facts)
        },
        WhereClause::NotJoin { join_vars, clauses } => evaluate_not_join_checked(join_vars, clauses, row, facts),
        _ => Some(false),
    }
}

proof fn lemma_nots_stay(cs: Seq<ClauseV>, row: BindingV, facts: Seq<Triple>, wr: bool, joins: bool, k: int)
    requires
        0 <= k <= cs.len(),
        nots_reject(cs.subrange(0, k), row, facts, wr, joins) != Some(false),
    ensures
        nots_reject(cs, row, facts, wr, joins) == nots_reject(cs.subrange(0, k), row, facts, wr, joins),
    decreases cs.len() - k,
{
    if k < cs.len() {
        assert(cs.subrange(0, k + 1).drop_last() =~= cs.subrange(0, k));
        lemma_nots_stay(cs, row, facts, wr, joins, k + 1);
    } else {
        assert(cs.subrange(0, k) =~= cs);
    }
}

fn nots_reject_exec(cs: &Vec<WhereClause>, row: &Bindings, facts: &Vec<Fact>, with_rules: bool, joins: bool) -> (r:
    Option<bool>)
    ensures
        r == nots_reject(clause_seq_view(cs@), row@, fact_triples(facts@), with_rules, joins),
{
    let ghost cv = clause_seq_view(cs@);
    let mut i: usize = 0;
    while i < cs.len()
        invariant
            i <= cs.len(),
            cv == clause_seq_view(cs@),
            nots_reject(cv.subrange(0, i as int), row@, fact_triples(facts@), with_rules, joins) == Some(false),
        decreases cs.len() - i,
    {
        assert(cv.subrange(0, i + 1).drop_last() =~= cv.subrange(0, i as int));
        assert(cv.subrange(0, i + 1).last() == cs@[i as int]@);
        let c = &cs[i];
        let relevant = match c {
            WhereClause::Not(_) => !joins,
            WhereClause::NotJoin { .. } => joins,
            _ => false,
        };
        if relevant {
            let x = not_check_exec(c, row, facts, with_rules);
            match x {
                Some(false) => {},
                _ => {
                    proof { lemma_nots_stay(cv, row@, fact_triples(facts@), with_rules, joins, i + 1); }
                    return x;
                },
            }
        }
        i = i + 1;
    }
    assert(cv.subrange(0, cs.len() as int) =~= cv);
    Some(false)
}

proof fn lemma_filter_none_stays(cs: Seq<ClauseV>, rows: Seq<BindingV>, facts: Seq<Triple>, wr: bool, k: int)
    requires
        0 <= k <= rows.len(),
        not_filter(cs, rows.subrange(0, k), facts, wr) is None,
    ensures
        not_filter(cs, rows, facts, wr) is None,
    decreases rows.len() - k,
{
    if k < rows.len() {
        assert(rows.subrange(0, k + 1).drop_last() =~= rows.subrange(0, k));
        lemma_filter_none_stays(cs, rows, facts, wr, k + 1);
    } else {
        assert(rows.subrange(0, k) =~= rows);
    }
}

/// Keeps the rows that no negation clause of `cs` rejects (`None` on overflow).
fn not_filter_exec(cs: &Vec<WhereClause>, rows: Vec<Bindings>, facts: &Vec<Fact>, with_rules: bool) -> (r: Option<
    Vec<Bindings>,
>)
    ensures
        match not_filter(clause_seq_view(cs@), bindings_view(rows@), fact_triples(facts@), with_rules) {
            Some(v) => r matches Some(x) && bindings_view(x@) == v,
            None => r is None,
        },
{
    let ghost cv = clause_seq_view(cs@);
    let ghost rv = bindings_view(rows@);
    let mut out: Vec<Bindings> = Vec::new();
    let mut i: usize = 0;
    assert(bindings_view(out@) =~= Seq::<BindingV>::empty());
    while i < rows.len()
        invariant
            i <= rows.len(),
            cv == clause_seq_view(cs@),
            rv == bindings_view(rows@),
            not_filter(cv, rv.subrange(0, i as int), fact_triples(facts@), with_rules) == Some(bindings_view(out@)),
        decreases rows.len() - i,
    {
        assert(rv.subrange(0, i + 1).drop_last() =~= rv.subrange(0, i as int));
        assert(rv.subrange(0, i + 1).last() == rows@[i as int]@);
        let row = &rows[i];
        let first = nots_reject_exec(cs, row, facts, with_rules, false);
        let rejected = match first {
            None => {
                proof { lemma_filter_none_stays(cv, rv, fact_triples(facts@), with_rules, i + 1); }
                return None;
            },
            Some(true) => true,
            Some(false) => match nots_reject_exec(cs, row, facts, with_rules, true) {
                None => {
                    proof { lemma_filter_none_stays(cv, rv, fact_triples(facts@), with_rules, i + 1); }
                    return None;
                },
                Some(b) => b,
            },
        };
        if !rejected {
            let ghost before = bindings_view(out@);
            out.push(row.clone());
            assert(bindings_view(out@) =~= before.push(row@));
        }
        i = i + 1;
    }
    assert(rv.subrange(0, rows.len() as int) =~= rv);
    Some(out)
}

/// The patterns of a branch: its patterns, and its rule invocations of arity
/// one or two as patterns.
pub open spec fn branch_patterns(branch: Seq<ClauseV>) -> Seq<PatternV>
    decreases branch.len(),
{
    if branch.len() == 0 {
        seq![]
    } else {
        let prev = branch_patterns(branch.drop_last());
        match branch.last() {
            ClauseV::Pattern(p) => prev.push(p),
            ClauseV::RuleInvocation { predicate, args } => match invocation_pattern(predicate, args) {
                Some(p) => prev.push(p),
                None => prev,
            },
            _ => prev,
        }
    }
}

/// `acc` with each row of `rows` appended unless already present.
pub open spec fn add_unique(acc: Seq<BindingV>, rows: Seq<BindingV>) -> Seq<BindingV>
    decreases rows.len(),
{
    if rows.len() == 0 {
        acc
    } else {
        let a = add_unique(acc, rows.drop_last());
        if a.contains(rows.last()) {
            a
        } else {
            a.push(rows.last())
        }
    }
}

/// Every variable some row binds.
pub open spec fn all_keys(rows: Seq<BindingV>) -> Set<Seq<char>> {
    Set::new(|k: Seq<char>| exists|i: int| 0 <= i < rows.len() && rows[i].contains_key(k))
}

/// `acc` with each row of `rows` that binds every join variable, restricted
/// to `keys`, appended unless already present.
pub open spec fn add_joined(acc: Seq<BindingV>, rows: Seq<BindingV>, join_vars: Seq<Seq<char>>, keys: Set<Seq<char>>) -> Seq<
    BindingV,
>
    decreases rows.len(),
{
    if rows.len() == 0 {
        acc
    } else {
        let a = add_joined(acc, rows.drop_last(), join_vars, keys);
        let b = rows.last();
        if !(forall|j: int| 0 <= j < join_vars.len() ==> b.contains_key(#[trigger] join_vars[j])) {
            a
        } else if a.contains(b.restrict(keys)) {
            a
        } else {
            a.push(b.restrict(keys))
        }
    }
}

/// A branch of a disjunction applied to the incoming rows: its patterns
/// joined, its own disjunctions, its negations, then its expression clauses;
/// `None` when an expression overflows.
pub open spec fn spec_branch(branch: Seq<ClauseV>, incoming: Seq<BindingV>, facts: Seq<Triple>) -> Option<
    Seq<BindingV>,
>
    decreases branch, 1nat,
{
    if incoming.len() == 0 {
        Some(seq![])
    } else {
        let bs = join_fold(branch_patterns(branch), facts, incoming);
        if bs.len() == 0 {
            Some(seq![])
        } else {
            match spec_or(branch, bs, facts) {
                None => None,
                Some(bs2) => if bs2.len() == 0 {
                    Some(seq![])
                } else {
                    match not_filter(branch, bs2, facts, false) {
                        None => None,
                        Some(bs3) => expr_clauses_rows(bs3, branch),
                    }
                },
            }
        }
    }
}

/// The union (without repeats, in order) of the branches' rows.
pub open spec fn or_union(branches: Seq<Seq<ClauseV>>, bs: Seq<BindingV>, facts: Seq<Triple>) -> Option<Seq<BindingV>>
    decreases branches, 0nat,
{
    if branches.len() == 0 {
        Some(seq![])
    } else {
        match or_union(branches.drop_last(), bs, facts) {
            None => None,
            Some(acc) => match spec_branch(branches.last(), bs, facts) {
                None => None,
                Some(res) => Some(add_unique(acc, res)),
            },
        }
    }
}

/// The union of the branches' rows that bind every join variable, each
/// restricted to the variables bound before the `or-join`.
pub open spec fn or_join_union(
    join_vars: Seq<Seq<char>>,
    branches: Seq<Seq<ClauseV>>,
    bs: Seq<BindingV>,
    facts: Seq<Triple>,
) -> Option<Seq<BindingV>>
    decreases branches, 0nat,
{
    if branches.len() == 0 {
        Some(seq![])
    } else {
        match or_join_union(join_vars, branches.drop_last(), bs, facts) {
            None => None,
            Some(acc) => match spec_branch(branches.last(), bs, facts) {
                None => None,
                Some(res) => Some(add_joined(acc, res, join_vars, all_keys(bs))),
            },
        }
    }
}

/// Every `or` / `or-join` clause of `clauses` applied in turn.
pub open spec fn spec_or(clauses: Seq<ClauseV>, bindings: Seq<BindingV>, facts: Seq<Triple>) -> Option<Seq<BindingV>>
    decreases clauses, 0nat,
{
    if clauses.len() == 0 {
        Some(bindings)
    } else {
        match spec_or(clauses.drop_last(), bindings, facts) {
            None => None,
            Some(bs) => match clauses.last() {
                ClauseV::Or(branches) => or_union(branches, bs, facts),
                ClauseV::OrJoin { join_vars, branches } => or_join_union(join_vars, branches, bs, facts),
                _ => Some(bs),
            },
        }
    }
}

fn branch_patterns_exec(branch: &Vec<WhereClause>) -> (r: Vec<Pattern>)
    ensures
        patterns_view(r@) == branch_patterns(clause_seq_view(branch@)),
{
    let ghost cv = clause_seq_view(branch@);
    let mut out: Vec<Pattern> = Vec::new();
    let mut i: usize = 0;
    assert(patterns_view(out@) =~= branch_patterns(cv.subrange(0, 0)));
    while i < branch.len()
        invariant
            i <= branch.len(),
            cv == clause_seq_view(branch@),
            patterns_view(out@) == branch_patterns(cv.subrange(0, i as int)),
        decreases branch.len() - i,
    {
        assert(cv.subrange(0, i + 1).drop_last() =~= cv.subrange(0, i as int));
        assert(cv.subrange(0, i + 1).last() == branch@[i as int]@);
        let ghost before = patterns_view(out@);
        match &branch[i] {
            WhereClause::Pattern(p) => {
                out.push(p.clone());
                assert(patterns_view(out@) =~= before.push(p@));
            },
            WhereClause::RuleInvocation { predicate, args } => {
                if let Ok(p) = rule_invocation_to_pattern(predicate.as_str(), args.as_slice()) {
                    out.push(p);
                    assert(patterns_view(out@) =~= before.push(p@));
                }
            },
            _ => {},
        }
        i = i + 1;
    }
    assert(cv.subrange(0, branch.len() as int) =~= cv);
    out
}

fn add_unique_exec(acc: &mut Vec<Bindings>, rows: Vec<Bindings>)
    ensures
        bindings_view(final(acc)@) == add_unique(bindings_view(old(acc)@), bindings_view(rows@)),
{
    let ghost start = bindings_view(acc@);
    let ghost rv = bindings_view(rows@);
    let mut i: usize = 0;
    while i < rows.len()
        invariant
            i <= rows.len(),
            rv == bindings_view(rows@),
            bindings_view(acc@) == add_unique(start, rv.subrange(0, i as int)),
        decreases rows.len() - i,
    {
        assert(rv.subrange(0, i + 1).drop_last() =~= rv.subrange(0, i as int));
        assert(rv.subrange(0, i + 1).last() == rows@[i as int]@);
        if !contains_bindings(acc, &rows[i]) {
            let ghost before = bindings_view(acc@);
            acc.push(rows[i].clone());
            assert(bindings_view(acc@) =~= before.push(rows@[i as int]@));
        }
        i = i + 1;
    }
    assert(rv.subrange(0, rows.len() as int) =~= rv);
}

fn binds_all(b: &Bindings, vars: &Vec<String>) -> (r: bool)
    ensures
        r == forall|j: int| 0 <= j < vars@.len() ==> b@.contains_key(#[trigger] names_of(vars@)[j]),
{
    let mut j: usize = 0;
    while j < vars.len()
        invariant
            j <= vars.len(),
            forall|q: int| 0 <= q < j ==> b@.contains_key(#[trigger] names_of(vars@)[q]),
        decreases vars.len() - j,
    {
        assert(names_of(vars@)[j as int] == vars@[j as int]@);
        if !b.contains_key(vars[j].as_str()) {
            return false;
        }
        j = j + 1;
    }
    true
}

fn add_joined_exec(acc: &mut Vec<Bindings>, rows: Vec<Bindings>, join_vars: &Vec<String>, keys: &Vec<String>)
    ensures
        bindings_view(final(acc)@) == add_joined(
            bindings_view(old(acc)@),
            bindings_view(rows@),
            names_of(join_vars@),
            name_set(keys@),
        ),
{
    let ghost start = bindings_view(acc@);
    let ghost rv = bindings_view(rows@);
    let ghost jv = names_of(join_vars@);
    let ghost ks = name_set(keys@);
    let mut i: usize = 0;
    while i < rows.len()
        invariant
            i <= rows.len(),
            rv == bindings_view(rows@),
            jv == names_of(join_vars@),
            ks == name_set(keys@),
            bindings_view(acc@) == add_joined(start, rv.subrange(0, i as int), jv, ks),
        decreases rows.len() - i,
    {
        assert(rv.subrange(0, i + 1).drop_last() =~= rv.subrange(0, i as int));
        assert(rv.subrange(0, i + 1).last() == rows@[i as int]@);
        assert(jv.len() == join_vars@.len());
        if binds_all(&rows[i], join_vars) {
            let b = rows[i].retain_keys(keys);
            if !contains_bindings(acc, &b) {
                let ghost before = bindings_view(acc@);
                acc.push(b);
                assert(bindings_view(acc@) =~= before.push(rows@[i as int]@.restrict(ks)));
            }
        }
        i = i + 1;
    }
    assert(rv.subrange(0, rows.len() as int) =~= rv);
}

/// The names of all variables bound in some row.
fn outer_keys(rows: &Vec<Bindings>) -> (r: Vec<String>)
    ensures
        name_set(r@) == all_keys(bindings_view(rows@)),
{
    let ghost rv = bindings_view(rows@);
    let mut out: Vec<String> = Vec::new();
    let mut i: usize = 0;
    assert(name_set(out@) =~= all_keys(rv.subrange(0, 0)));
    while i < rows.len()
        invariant
            i <= rows.len(),
            rv == bindings_view(rows@),
            name_set(out@) == all_keys(rv.subrange(0, i as int)),
        decreases rows.len() - i,
    {
        let mut ks = rows[i].keys();
        let ghost before = out@;
        let ghost more = ks@;
        out.append(&mut ks);
        proof {
            let pre = rv.subrange(0, i as int);
            let post = rv.subrange(0, i + 1);
            assert forall|k: Seq<char>| name_set(out@).contains(k) <==> all_keys(post).contains(k) by {
                if name_set(out@).contains(k) {
                    let q = choose|q: int| 0 <= q < out@.len() && out@[q]@ == k;
                    if q < before.len() {
                        assert(before[q] == out@[q]);
                        assert(name_set(before).contains(k));
                        let w = choose|w: int| 0 <= w < pre.len() && pre[w].contains_key(k);
                        assert(post[w] == pre[w]);
                    } else {
                        assert(more[q - before.len()] == out@[q]);
                        assert(name_set(more).contains(k));
                        assert(post[i as int] == rows@[i as int]@);
                    }
                }
                if all_keys(post).contains(k) {
                    let w = choose|w: int| 0 <= w < post.len() && post[w].contains_key(k);
                    if w < i {
                        assert(pre[w] == post[w]);
                        assert(all_keys(pre).contains(k));
                        let q = choose|q: int| 0 <= q < before.len() && before[q]@ == k;
                        assert(out@[q] == before[q]);
                    } else {
                        assert(post[w] == rows@[i as int]@);
                        assert(name_set(more).contains(k));
                        let q = choose|q: int| 0 <= q < more.len() && more[q]@ == k;
                        assert(out@[before.len() + q] == more[q]);
                    }
                }
            }
            assert(name_set(out@) =~= all_keys(post));
        }
        i = i + 1;
    }
    assert(rv.subrange(0, rows.len() as int) =~= rv);
    out
}

/// Evaluate a single branch of an `or`/`or-join` against incoming bindings:
/// its patterns, nested disjunctions, negations, then expression clauses.
/// `None` when an expression overflows.
pub fn evaluate_branch(branch: &Vec<WhereClause>, incoming: Vec<Bindings>, facts: &Vec<Fact>) -> (r: Option<
    Vec<Bindings>,
>)
    ensures
        match spec_branch(clause_seq_view(branch@), bindings_view(incoming@), fact_triples(facts@)) {
            Some(v) => r matches Some(x) && bindings_view(x@) == v,
            None => r is None,
        },
    decreases branch, 1nat,
{
    if incoming.len() == 0 {
        let v: Vec<Bindings> = Vec::new();
        assert(bindings_view(v@) =~= Seq::<BindingV>::empty());
        return Some(v);
    }
    let patterns = branch_patterns_exec(branch);
    let bindings = if patterns.len() == 0 {
        incoming
    } else {
        let matcher = PatternMatcher::from_slice(clone_facts(facts));
        matcher.match_patterns_seeded(patterns.as_slice(), incoming)
    };
    if bindings.len() == 0 {
        let v: Vec<Bindings> = Vec::new();
        assert(bindings_view(v@) =~= Seq::<BindingV>::empty());
        return Some(v);
    }
    let bindings = match apply_or_clauses(branch, bindings, facts) {
        Some(b) => b,
        None => return None,
    };
    if bindings.len() == 0 {
        let v: Vec<Bindings> = Vec::new();
        assert(bindings_view(v@) =~= Seq::<BindingV>::empty());
        return Some(v);
    }
    let bindings = match not_filter_exec(branch, bindings, facts, false) {
        Some(b) => b,
        None => return None,
    };
    apply_expr_clauses_checked(bindings, branch.as_slice())
}

/// The union of the branches' rows, without repeats, in order.
fn or_union_exec(branches: &Vec<Vec<WhereClause>>, bs: &Vec<Bindings>, facts: &Vec<Fact>) -> (r: Option<Vec<Bindings>>)
    ensures
        match or_union(branch_seq_view(branches@), bindings_view(bs@), fact_triples(facts@)) {
            Some(v) => r matches Some(x) && bindings_view(x@) == v,
            None => r is None,
        },
    decreases branches, 0nat,
{
    let ghost bv = branch_seq_view(branches@);
    let mut result: Vec<Bindings> = Vec::new();
    let mut j: usize = 0;
    assert(bindings_view(result@) =~= Seq::<BindingV>::empty());
    while j < branches.len()
        invariant
            j <= branches.len(),
            bv == branch_seq_view(branches@),
            or_union(bv.subrange(0, j as int), bindings_view(bs@), fact_triples(facts@)) == Some(bindings_view(result@)),
        decreases branches.len() - j,
    {
        assert(bv.subrange(0, j + 1).drop_last() =~= bv.subrange(0, j as int));
        assert(bv.subrange(0, j + 1).last() == clause_seq_view(branches@[j as int]@));
        proof {
            broadcast use vstd::std_specs::vec::axiom_vec_index_decreases;
            assert(decreases_to!(*branches => branches[j as int]));
        }
        let copies = clone_bindings(bs);
        match evaluate_branch(&branches[j], copies, facts) {
            Some(res) => add_unique_exec(&mut result, res),
            None => {
                proof { lemma_or_union_none_stays(bv, bindings_view(bs@), fact_triples(facts@), j as int + 1); }
                return None;
            },
        }
        j = j + 1;
    }
    assert(bv.subrange(0, branches.len() as int) =~= bv);
    Some(result)
}

/// The union of the branches' rows binding every join variable, restricted
/// to the variables bound before.
fn or_join_union_exec(join_vars: &Vec<String>, branches: &Vec<Vec<WhereClause>>, bs: &Vec<Bindings>, facts: &Vec<Fact>) -> (r:
    Option<Vec<Bindings>>)
    ensures
        match or_join_union(names_of(join_vars@), branch_seq_view(branches@), bindings_view(bs@), fact_triples(facts@)) {
            Some(v) => r matches Some(x) && bindings_view(x@) == v,
            None => r is None,
        },
    decreases branches, 0nat,
{
    let ghost bv = branch_seq_view(branches@);
    let ghost jv = names_of(join_vars@);
    let keys = outer_keys(bs);
    let mut result: Vec<Bindings> = Vec::new();
    let mut j: usize = 0;
    assert(bindings_view(result@) =~= Seq::<BindingV>::empty());
    while j < branches.len()
        invariant
            j <= branches.len(),
            bv == branch_seq_view(branches@),
            jv == names_of(join_vars@),
            name_set(keys@) == all_keys(bindings_view(bs@)),
            or_join_union(jv, bv.subrange(0, j as int), bindings_view(bs@), fact_triples(facts@)) == Some(
                bindings_view(result@),
            ),
        decreases branches.len() - j,
    {
        assert(bv.subrange(0, j + 1).drop_last() =~= bv.subrange(0, j as int));
        assert(bv.subrange(0, j + 1).last() == clause_seq_view(branches@[j as int]@));
        proof {
            broadcast use vstd::std_specs::vec::axiom_vec_index_decreases;
            assert(decreases_to!(*branches => branches[j as int]));
        }
        let copies = clone_bindings(bs);
        match evaluate_branch(&branches[j], copies, facts) {
            Some(res) => add_joined_exec(&mut result, res, join_vars, &keys),
            None => {
                proof { lemma_or_join_none_stays(jv, bv, bindings_view(bs@), fact_triples(facts@), j as int + 1); }
                return None;
            },
        }
        j = j + 1;
    }
    assert(bv.subrange(0, branches.len() as int) =~= bv);
    Some(result)
}

proof fn lemma_or_union_none_stays(bv: Seq<Seq<ClauseV>>, bs: Seq<BindingV>, facts: Seq<Triple>, k: int)
    requires
        0 <= k <= bv.len(),
        or_union(bv.subrange(0, k), bs, facts) is None,
    ensures
        or_union(bv, bs, facts) is None,
    decreases bv.len() - k,
{
    if k < bv.len() {
        assert(bv.subrange(0, k + 1).drop_last() =~= bv.subrange(0, k));
        lemma_or_union_none_stays(bv, bs, facts, k + 1);
    } else {
        assert(bv.subrange(0, k) =~= bv);
    }
}

proof fn lemma_or_join_none_stays(jv: Seq<Seq<char>>, bv: Seq<Seq<ClauseV>>, bs: Seq<BindingV>, facts: Seq<Triple>, k: int)
    requires
        0 <= k <= bv.len(),
        or_join_union(jv, bv.subrange(0, k), bs, facts) is None,
    ensures
        or_join_union(jv, bv, bs, facts) is None,
    decreases bv.len() - k,
{
    if k < bv.len() {
        assert(bv.subrange(0, k + 1).drop_last() =~= bv.subrange(0, k));
        lemma_or_join_none_stays(jv, bv, bs, facts, k + 1);
    } else {
        assert(bv.subrange(0, k) =~= bv);
    }
}

proof fn lemma_spec_or_none_stays(cv: Seq<ClauseV>, bs: Seq<BindingV>, facts: Seq<Triple>, k: int)
    requires
        0 <= k <= cv.len(),
        spec_or(cv.subrange(0, k), bs, facts) is None,
    ensures
        spec_or(cv, bs, facts) is None,
    decreases cv.len() - k,
{
    if k < cv.len() {
        assert(cv.subrange(0, k + 1).drop_last() =~= cv.subrange(0, k));
        lemma_spec_or_none_stays(cv, bs, facts, k + 1);
    } else {
        assert(cv.subrange(0, k) =~= cv);
    }
}

/// Copies a list of bindings.
fn clone_bindings(v: &Vec<Bindings>) -> (r: Vec<Bindings>)
    ensures
        bindings_view(r@) == bindings_view(v@),
{
    let mut out: Vec<Bindings> = Vec::new();
    let mut i: usize = 0;
    while i < v.len()
        invariant
            i <= v.len(),
            out@.len() == i,
            forall|j: int| 0 <= j < i ==> (#[trigger] out@[j])@ == v@[j]@,
        decreases v.len() - i,
    {
        out.push(v[i].clone());
        i = i + 1;
    }
    assert(bindings_view(out@) =~= bindings_view(v@));
    out
}

/// Apply all Or/OrJoin clauses from `clauses` to `bindings` in sequence:
/// an `or` unites its branches' rows (without repeats); an `or-join` keeps
/// the rows that bind every join variable, restricted to the variables bound
/// before it. `None` when an expression overflows.
pub fn apply_or_clauses(clauses: &Vec<WhereClause>, bindings: Vec<Bindings>, facts: &Vec<Fact>) -> (r: Option<
    Vec<Bindings>,
>)
    ensures
        match spec_or(clause_seq_view(clauses@), bindings_view(bindings@), fact_triples(facts@)) {
            Some(v) => r matches Some(x) && bindings_view(x@) == v,
            None => r is None,
        },
    decreases clauses, 0nat,
{
    let ghost cv = clause_seq_view(clauses@);
    let ghost start = bindings_view(bindings@);
    let mut current = bindings;
    let mut i: usize = 0;
    assert(cv.subrange(0, 0) =~= Seq::<ClauseV>::empty());
    while i < clauses.len()
        invariant
            i <= clauses.len(),
            cv == clause_seq_view(clauses@),
            start == bindings_view(bindings@),
            spec_or(cv.subrange(0, i as int), start, fact_triples(facts@)) == Some(bindings_view(current@)),
        decreases clauses.len() - i,
    {
        assert(cv.subrange(0, i + 1).drop_last() =~= cv.subrange(0, i as int));
        assert(cv.subrange(0, i + 1).last() == clauses@[i as int]@);
        proof {
            broadcast use vstd::std_specs::vec::axiom_vec_index_decreases;
            assert(decreases_to!(*clauses => clauses[i as int]));
        }
        match &clauses[i] {
            WhereClause::Or(branches) => {
                assert(clauses@[i as int]@ == ClauseV::Or(branch_seq_view(branches@)));
                match or_union_exec(branches, &current, facts) {
                    Some(v) => {
                        current = v;
                    },
                    None => {
                        proof { lemma_spec_or_none_stays(cv, start, fact_triples(facts@), i as int + 1); }
                        return None;
                    },
                }
            },
            WhereClause::OrJoin { join_vars, branches } => {
                assert(clauses@[i as int]@ == ClauseV::OrJoin {
                    join_vars: names_of(join_vars@),
                    branches: branch_seq_view(branches@),
                });
                match or_join_union_exec(join_vars, branches, &current, facts) {
                    Some(v) => {
                        current = v;
                    },
                    None => {
                        proof { lemma_spec_or_none_stays(cv, start, fact_triples(facts@), i as int + 1); }
                        return None;
                    },
                }
            },
            _ => {},
        }
        i = i + 1;
    }
    assert(cv.subrange(0, clauses.len() as int) =~= cv);
    Some(current)
}

/// The variable a find spec reads.
pub open spec fn spec_var(f: FindSpecV) -> Seq<char> {
    match f {
        FindSpecV::Variable(v) => v,
        FindSpecV::Aggregate { var, .. } => var,
        FindSpecV::Window(w) => match w.var {
            Some(v) => v,
            None => w.order_by,
        },
    }
}

/// The values of the find variables in a row, if it binds them all.
pub open spec fn row_values(b: BindingV, find: Seq<FindSpecV>) -> Option<Seq<ValueV>>
    decreases find.len(),
{
    if find.len() == 0 {
        Some(seq![])
    } else {
        match row_values(b, find.drop_last()) {
            None => None,
            Some(vs) => if b.contains_key(spec_var(find.last())) {
                Some(vs.push(b[spec_var(find.last())]))
            } else {
                None
            },
        }
    }
}

/// The rows of values of the bindings that bind every find variable.
pub open spec fn extract_rows(rows: Seq<BindingV>, find: Seq<FindSpecV>) -> Seq<Seq<ValueV>>
    decreases rows.len(),
{
    if rows.len() == 0 {
        seq![]
    } else {
        let prev = extract_rows(rows.drop_last(), find);
        match row_values(rows.last(), find) {
            Some(vs) => prev.push(vs),
            None => prev,
        }
    }
}

/// The values of the find variables in a binding, if it binds them all.
fn row_values_exec(b: &Bindings, find_specs: &Vec<FindSpec>) -> (r: Option<Vec<Value>>)
    ensures
        match row_values(b@, find_specs_view(find_specs@)) {
            Some(vs) => r matches Some(x) && x@.map_values(|v: Value| v@) == vs,
            None => r is None,
        },
{
    let ghost fv = find_specs_view(find_specs@);
    let mut row: Vec<Value> = Vec::new();
    let mut i: usize = 0;
    assert(row@.map_values(|v: Value| v@) =~= Seq::<ValueV>::empty());
    while i < find_specs.len()
        invariant
            i <= find_specs.len(),
            fv == find_specs_view(find_specs@),
            row_values(b@, fv.subrange(0, i as int)) == Some(row@.map_values(|v: Value| v@)),
        decreases find_specs.len() - i,
    {
        assert(fv.subrange(0, i + 1).drop_last() =~= fv.subrange(0, i as int));
        assert(fv.subrange(0, i + 1).last() == find_specs@[i as int]@);
        match b.get(find_specs[i].var()) {
            Some(v) => {
                let ghost before = row@.map_values(|v: Value| v@);
                row.push(v.clone());
                assert(row@.map_values(|v: Value| v@) =~= before.push(v@));
            },
            None => {
                proof { lemma_row_values_none(b@, fv, i as int + 1); }
                return None;
            },
        }
        i = i + 1;
    }
    assert(fv.subrange(0, find_specs.len() as int) =~= fv);
    Some(row)
}

proof fn lemma_row_values_none(b: BindingV, fv: Seq<FindSpecV>, k: int)
    requires
        0 <= k <= fv.len(),
        row_values(b, fv.subrange(0, k)) is None,
    ensures
        row_values(b, fv) is None,
    decreases fv.len() - k,
{
    if k < fv.len() {
        assert(fv.subrange(0, k + 1).drop_last() =~= fv.subrange(0, k));
        lemma_row_values_none(b, fv, k + 1);
    } else {
        assert(fv.subrange(0, k) =~= fv);
    }
}

/// The models of rows of values.
pub open spec fn rows_view(s: Seq<Vec<Value>>) -> Seq<Seq<ValueV>> {
    s.map_values(|r: Vec<Value>| r@.map_values(|v: Value| v@))
}

/// Extract plain variable values from bindings (non-aggregate path).
pub fn extract_variables(bindings: Vec<Bindings>, find_specs: &Vec<FindSpec>) -> (r: Vec<Vec<Value>>)
    ensures
        rows_view(r@) == extract_rows(bindings_view(bindings@), find_specs_view(find_specs@)),
{
    let ghost bv = bindings_view(bindings@);
    let ghost fv = find_specs_view(find_specs@);
    let mut results: Vec<Vec<Value>> = Vec::new();
    let mut i: usize = 0;
    assert(rows_view(results@) =~= Seq::<Seq<ValueV>>::empty());
    while i < bindings.len()
        invariant
            i <= bindings.len(),
            bv == bindings_view(bindings@),
            fv == find_specs_view(find_specs@),
            rows_view(results@) == extract_rows(bv.subrange(0, i as int), fv),
        decreases bindings.len() - i,
    {
        assert(bv.subrange(0, i + 1).drop_last() =~= bv.subrange(0, i as int));
        assert(bv.subrange(0, i + 1).last() == bindings@[i as int]@);
        if let Some(row) = row_values_exec(&bindings[i], find_specs) {
            let ghost before = rows_view(results@);
            results.push(row);
            assert(rows_view(results@) =~= before.push(row@.map_values(|v: Value| v@)));
        }
        i = i + 1;
    }
    assert(bv.subrange(0, bindings.len() as int) =~= bv);
    results
}

/// The key under which the aggregate of find spec `i` is kept.
pub open spec fn agg_key(i: nat) -> Seq<char> {
    "__agg_"@ + nat_text(i)
}

/// The variables of the plain find specs, in order.
pub open spec fn plain_vars(find: Seq<FindSpecV>) -> Seq<Seq<char>>
    decreases find.len(),
{
    if find.len() == 0 {
        seq![]
    } else {
        match find.last() {
            FindSpecV::Variable(v) => plain_vars(find.drop_last()).push(v),
            _ => plain_vars(find.drop_last()),
        }
    }
}

/// The values of the variables in a row (`Null` where unbound).
pub open spec fn group_key(b: BindingV, vars: Seq<Seq<char>>) -> Seq<ValueV> {
    vars.map_values(|v: Seq<char>| if b.contains_key(v) { b[v] } else { ValueV::Null })
}

/// The first group with the given key, if any.
pub open spec fn key_pos(groups: Seq<(Seq<ValueV>, Seq<BindingV>)>, key: Seq<ValueV>) -> Option<int>
    decreases groups.len(),
{
    if groups.len() == 0 {
        None
    } else {
        match key_pos(groups.drop_last(), key) {
            Some(i) => Some(i),
            None => if groups.last().0 == key {
                Some(groups.len() - 1)
            } else {
                None
            },
        }
    }
}

proof fn lemma_key_pos(groups: Seq<(Seq<ValueV>, Seq<BindingV>)>, key: Seq<ValueV>)
    ensures
        key_pos(groups, key) matches Some(i) ==> 0 <= i < groups.len() && groups[i].0 == key && forall|j: int|
            0 <= j < i ==> groups[j].0 != key,
        key_pos(groups, key) is None ==> forall|j: int| 0 <= j < groups.len() ==> groups[j].0 != key,
    decreases groups.len(),
{
    if groups.len() > 0 {
        lemma_key_pos(groups.drop_last(), key);
        assert forall|j: int| 0 <= j < groups.len() - 1 implies groups.drop_last()[j] == groups[j] by {}
    }
}

/// The rows grouped by their key, groups in order of first appearance.
pub open spec fn group_rows(rows: Seq<BindingV>, vars: Seq<Seq<char>>) -> Seq<(Seq<ValueV>, Seq<BindingV>)>
    decreases rows.len(),
{
    if rows.len() == 0 {
        seq![]
    } else {
        let gs = group_rows(rows.drop_last(), vars);
        let key = group_key(rows.last(), vars);
        match key_pos(gs, key) {
            Some(i) => gs.update(i, (gs[i].0, gs[i].1.push(rows.last()))),
            None => gs.push((key, seq![rows.last()])),
        }
    }
}

/// The non-null values a variable has in the rows, in order.
pub open spec fn non_null(rows: Seq<BindingV>, var: Seq<char>) -> Seq<ValueV>
    decreases rows.len(),
{
    if rows.len() == 0 {
        seq![]
    } else {
        let prev = non_null(rows.drop_last(), var);
        if rows.last().contains_key(var) && rows.last()[var] != ValueV::Null {
            prev.push(rows.last()[var])
        } else {
            prev
        }
    }
}

/// The plain find variables bound to their group key values.
pub open spec fn key_binding(find: Seq<FindSpecV>, key: Seq<ValueV>) -> BindingV
    decreases find.len(),
{
    if find.len() == 0 {
        Map::empty()
    } else {
        match find.last() {
            FindSpecV::Variable(v) => key_binding(find.drop_last(), key).insert(
                v,
                key[plain_vars(find.drop_last()).len() as int],
            ),
            _ => key_binding(find.drop_last(), key),
        }
    }
}

/// The message part of an aggregate error on which the group is skipped.
pub open spec fn skip_marker() -> Seq<char> {
    "no non-null values in group"@
}

/// The aggregates of the first `k` find specs over a group, added to `b`:
/// `Done(None)` when the group is skipped (an aggregate has no non-null
/// values), or the error of the first aggregate that fails.
pub open spec fn agg_fold(find: Seq<FindSpecV>, members: Seq<BindingV>, b: BindingV, k: int) -> Outcome<Option<BindingV>>
    decreases k,
{
    if k <= 0 {
        Outcome::Done(Some(b))
    } else {
        match agg_fold(find, members, b, k - 1) {
            Outcome::Done(Some(acc)) => match find[k - 1] {
                FindSpecV::Aggregate { func, var } => {
                    let vals = non_null(members, var);
                    if aggregate_overflows(agg_name(func), vals) {
                        Outcome::Panic
                    } else {
                        match spec_aggregate(agg_name(func), vals) {
                            Ok(v) => Outcome::Done(Some(acc.insert(agg_key((k - 1) as nat), v))),
                            Err(e) => if contains_seq(e, skip_marker()) {
                                Outcome::Done(None)
                            } else {
                                Outcome::Failed(e)
                            },
                        }
                    }
                },
                _ => Outcome::Done(Some(acc)),
            },
            other => other,
        }
    }
}

/// The aggregate rows of the groups, in order; skipped groups left out.
pub open spec fn groups_out(find: Seq<FindSpecV>, groups: Seq<(Seq<ValueV>, Seq<BindingV>)>) -> Outcome<Seq<BindingV>>
    decreases groups.len(),
{
    if groups.len() == 0 {
        Outcome::Done(seq![])
    } else {
        match groups_out(find, groups.drop_last()) {
            Outcome::Done(acc) => {
                let g = groups.last();
                match agg_fold(find, g.1, key_binding(find, g.0), find.len() as int) {
                    Outcome::Done(Some(b)) => Outcome::Done(acc.push(b)),
                    Outcome::Done(None) => Outcome::Done(acc),
                    Outcome::Failed(e) => Outcome::Failed(e),
                    Outcome::Panic => Outcome::Panic,
                }
            },
            other => other,
        }
    }
}

/// Whether a find spec counts (`count` or `count-distinct`).
pub open spec fn is_count(f: FindSpecV) -> bool {
    match f {
        FindSpecV::Aggregate { func, .. } => func == AggFunc::Count || func == AggFunc::CountDistinct,
        _ => false,
    }
}

/// A row with every aggregate key bound to 0.
pub open spec fn zero_row(n: nat) -> BindingV
    decreases n,
{
    if n == 0 {
        Map::empty()
    } else {
        zero_row((n - 1) as nat).insert(agg_key((n - 1) as nat), ValueV::Integer(0))
    }
}

/// Grouping and aggregation: no rows give one row of zero counts when every
/// find spec counts, else none; otherwise the rows are grouped by the plain
/// find variables and the `:with` variables, and each group gives one row
/// of its plain variables and its aggregates.
pub open spec fn spec_aggregation(rows: Seq<BindingV>, find: Seq<FindSpecV>, with_vars: Seq<Seq<char>>) -> Outcome<
    Seq<BindingV>,
> {
    if rows.len() == 0 {
        if plain_vars(find).len() == 0 && forall|i: int| 0 <= i < find.len() ==> is_count(#[trigger] find[i]) {
            Outcome::Done(seq![zero_row(find.len())])
        } else {
            Outcome::Done(seq![])
        }
    } else {
        groups_out(find, group_rows(rows, plain_vars(find) + with_vars))
    }
}

/// The models of the groups.
pub open spec fn groups_view(keys: Seq<Vec<Value>>, members: Seq<Vec<Bindings>>) -> Seq<(Seq<ValueV>, Seq<BindingV>)> {
    Seq::new(keys.len(), |i: int| (keys[i]@.map_values(|v: Value| v@), bindings_view(members[i]@)))
}

fn values_equal(a: &Vec<Value>, b: &Vec<Value>) -> (r: bool)
    ensures
        r == (a@.map_values(|v: Value| v@) == b@.map_values(|v: Value| v@)),
{
    if a.len() != b.len() {
        assert(a@.map_values(|v: Value| v@).len() != b@.map_values(|v: Value| v@).len());
        return false;
    }
    let mut i: usize = 0;
    while i < a.len()
        invariant
            i <= a.len(),
            a.len() == b.len(),
            forall|j: int| 0 <= j < i ==> (#[trigger] a@[j])@ == b@[j]@,
        decreases a.len() - i,
    {
        if !value_eq(&a[i], &b[i]) {
            assert(a@.map_values(|v: Value| v@)[i as int] != b@.map_values(|v: Value| v@)[i as int]);
            return false;
        }
        i = i + 1;
    }
    assert(a@.map_values(|v: Value| v@) =~= b@.map_values(|v: Value| v@));
    true
}

fn group_key_exec(b: &Bindings, vars: &Vec<String>) -> (r: Vec<Value>)
    ensures
        r@.map_values(|v: Value| v@) == group_key(b@, names_of(vars@)),
{
    let mut key: Vec<Value> = Vec::new();
    let mut i: usize = 0;
    while i < vars.len()
        invariant
            i <= vars.len(),
            key@.len() == i,
            forall|j: int| 0 <= j < i ==> (#[trigger] key@[j])@ == (if b@.contains_key(vars@[j]@) {
                b@[vars@[j]@]
            } else {
                ValueV::Null
            }),
        decreases vars.len() - i,
    {
        match b.get(vars[i].as_str()) {
            Some(v) => key.push(v.clone()),
            None => key.push(Value::Null),
        }
        i = i + 1;
    }
    assert(key@.map_values(|v: Value| v@) =~= group_key(b@, names_of(vars@)));
    key
}

fn group_rows_exec(rows: &Vec<Bindings>, vars: &Vec<String>) -> (r: (Vec<Vec<Value>>, Vec<Vec<Bindings>>))
    ensures
        r.0.len() == r.1.len(),
        groups_view(r.0@, r.1@) == group_rows(bindings_view(rows@), names_of(vars@)),
{
    let ghost rv = bindings_view(rows@);
    let ghost nv = names_of(vars@);
    let mut keys: Vec<Vec<Value>> = Vec::new();
    let mut members: Vec<Vec<Bindings>> = Vec::new();
    let mut i: usize = 0;
    assert(groups_view(keys@, members@) =~= group_rows(rv.subrange(0, 0), nv));
    while i < rows.len()
        invariant
            i <= rows.len(),
            rv == bindings_view(rows@),
            nv == names_of(vars@),
            keys.len() == members.len(),
            groups_view(keys@, members@) == group_rows(rv.subrange(0, i as int), nv),
        decreases rows.len() - i,
    {
        assert(rv.subrange(0, i + 1).drop_last() =~= rv.subrange(0, i as int));
        assert(rv.subrange(0, i + 1).last() == rows@[i as int]@);
        let ghost gs = groups_view(keys@, members@);
        let key = group_key_exec(&rows[i], vars);
        let ghost kv = key@.map_values(|v: Value| v@);
        let mut pos: usize = 0;
        let mut found = false;
        while pos < keys.len() && !found
            invariant
                pos <= keys.len(),
                keys.len() == members.len(),
                gs == groups_view(keys@, members@),
                kv == key@.map_values(|v: Value| v@),
                found ==> pos < keys.len() && gs[pos as int].0 == kv,
                forall|j: int| 0 <= j < pos ==> gs[j].0 != kv,
            decreases keys.len() - pos, if found { 0int } else { 1int },
        {
            if values_equal(&keys[pos], &key) {
                found = true;
            } else {
                pos = pos + 1;
            }
        }
        if found {
            proof {
                lemma_key_pos(gs, kv);
                assert(gs[pos as int].0 == kv);
                assert(key_pos(gs, kv) == Some(pos as int));
            }
            let mut m = clone_bindings(&members[pos]);
            let ghost mb = bindings_view(m@);
            m.push(rows[i].clone());
            assert(bindings_view(m@) =~= mb.push(rows@[i as int]@));
            members.set(pos, m);
            assert(groups_view(keys@, members@) =~= gs.update(pos as int, (gs[pos as int].0, gs[pos as int].1.push(
                rows@[i as int]@,
            ))));
        } else {
            proof {
                lemma_key_pos(gs, kv);
                assert(key_pos(gs, kv) is None);
            }
            let mut m: Vec<Bindings> = Vec::new();
            m.push(rows[i].clone());
            assert(bindings_view(m@) =~= seq![rows@[i as int]@]);
            keys.push(key);
            members.push(m);
            assert(groups_view(keys@, members@) =~= gs.push((kv, seq![rows@[i as int]@])));
        }
        i = i + 1;
    }
    assert(rv.subrange(0, rows.len() as int) =~= rv);
    (keys, members)
}

fn non_null_exec<'a>(members: &'a Vec<Bindings>, var: &str) -> (r: Vec<&'a Value>)
    ensures
        refs_view(r@) == non_null(bindings_view(members@), var@),
{
    let ghost mv = bindings_view(members@);
    let mut out: Vec<&Value> = Vec::new();
    let mut i: usize = 0;
    assert(refs_view(out@) =~= Seq::<ValueV>::empty());
    while i < members.len()
        invariant
            i <= members.len(),
            mv == bindings_view(members@),
            refs_view(out@) == non_null(mv.subrange(0, i as int), var@),
        decreases members.len() - i,
    {
        assert(mv.subrange(0, i + 1).drop_last() =~= mv.subrange(0, i as int));
        assert(mv.subrange(0, i + 1).last() == members@[i as int]@);
        if let Some(v) = members[i].get(var) {
            let is_null = match v {
                Value::Null => true,
                _ => false,
            };
            if !is_null {
                let ghost before = refs_view(out@);
                out.push(v);
                assert(refs_view(out@) =~= before.push(v@));
            }
        }
        i = i + 1;
    }
    assert(mv.subrange(0, members.len() as int) =~= mv);
    out
}

fn plain_vars_exec(find_specs: &Vec<FindSpec>) -> (r: Vec<String>)
    ensures
        names_of(r@) == plain_vars(find_specs_view(find_specs@)),
{
    let ghost fv = find_specs_view(find_specs@);
    let mut out: Vec<String> = Vec::new();
    let mut i: usize = 0;
    assert(names_of(out@) =~= plain_vars(fv.subrange(0, 0)));
    while i < find_specs.len()
        invariant
            i <= find_specs.len(),
            fv == find_specs_view(find_specs@),
            names_of(out@) == plain_vars(fv.subrange(0, i as int)),
        decreases find_specs.len() - i,
    {
        assert(fv.subrange(0, i + 1).drop_last() =~= fv.subrange(0, i as int));
        assert(fv.subrange(0, i + 1).last() == find_specs@[i as int]@);
        if let FindSpec::Variable(v) = &find_specs[i] {
            let ghost before = names_of(out@);
            out.push(v.clone());
            assert(names_of(out@) =~= before.push(v@));
        }
        i = i + 1;
    }
    assert(fv.subrange(0, find_specs.len() as int) =~= fv);
    out
}

fn agg_key_exec(i: usize) -> (r: String)
    ensures
        r@ == agg_key(i as nat),
{
    let n = usize_to_string(i);
    concat2("__agg_", n.as_str())
}

fn key_binding_exec(find_specs: &Vec<FindSpec>, key: &Vec<Value>) -> (r: Bindings)
    requires
        plain_vars(find_specs_view(find_specs@)).len() <= key.len(),
    ensures
        r@ == key_binding(find_specs_view(find_specs@), key@.map_values(|v: Value| v@)),
{
    let ghost fv = find_specs_view(find_specs@);
    let ghost kv = key@.map_values(|v: Value| v@);
    let mut b = Bindings::new();
    let mut pos: usize = 0;
    let mut i: usize = 0;
    while i < find_specs.len()
        invariant
            i <= find_specs.len(),
            fv == find_specs_view(find_specs@),
            kv == key@.map_values(|v: Value| v@),
            plain_vars(fv).len() <= key.len(),
            pos == plain_vars(fv.subrange(0, i as int)).len(),
            b@ == key_binding(fv.subrange(0, i as int), kv),
        decreases find_specs.len() - i,
    {
        assert(fv.subrange(0, i + 1).drop_last() =~= fv.subrange(0, i as int));
        assert(fv.subrange(0, i + 1).last() == find_specs@[i as int]@);
        proof { lemma_plain_vars_prefix(fv, i as int + 1); }
        if let FindSpec::Variable(v) = &find_specs[i] {
            b.insert(v.clone(), key[pos].clone());
            pos = pos + 1;
        }
        i = i + 1;
    }
    assert(fv.subrange(0, find_specs.len() as int) =~= fv);
    b
}

proof fn lemma_plain_vars_prefix(fv: Seq<FindSpecV>, k: int)
    requires
        0 <= k <= fv.len(),
    ensures
        plain_vars(fv.subrange(0, k)).len() <= plain_vars(fv).len(),
    decreases fv.len() - k,
{
    if k < fv.len() {
        assert(fv.subrange(0, k + 1).drop_last() =~= fv.subrange(0, k));
        lemma_plain_vars_prefix(fv, k + 1);
    } else {
        assert(fv.subrange(0, k) =~= fv);
    }
}

proof fn lemma_agg_fold_stays(find: Seq<FindSpecV>, members: Seq<BindingV>, b: BindingV, k: int, n: int)
    requires
        0 <= k <= n,
        !(agg_fold(find, members, b, k) matches Outcome::Done(Some(_))),
    ensures
        agg_fold(find, members, b, n) == agg_fold(find, members, b, k),
    decreases n - k,
{
    if k < n {
        lemma_agg_fold_stays(find, members, b, k, n - 1);
    }
}

/// The aggregate row of one group (see [`agg_fold`]); `Ok(None)` when the
/// group is skipped, `Err(None)` on overflow.
fn group_out_exec(find_specs: &Vec<FindSpec>, key: &Vec<Value>, members: &Vec<Bindings>) -> (r: Result<
    Option<Bindings>,
    Option<String>,
>)
    requires
        plain_vars(find_specs_view(find_specs@)).len() <= key.len(),
    ensures
        match agg_fold(
            find_specs_view(find_specs@),
            bindings_view(members@),
            key_binding(find_specs_view(find_specs@), key@.map_values(|v: Value| v@)),
            find_specs@.len() as int,
        ) {
            Outcome::Done(Some(b)) => r matches Ok(Some(x)) && x@ == b,
            Outcome::Done(None) => r matches Ok(None),
            Outcome::Failed(m) => r matches Err(Some(x)) && x@ == m,
            Outcome::Panic => r matches Err(None),
        },
{
    let ghost fv = find_specs_view(find_specs@);
    let ghost mv = bindings_view(members@);
    let ghost b0 = key_binding(fv, key@.map_values(|v: Value| v@));
    let mut binding = key_binding_exec(find_specs, key);
    let mut i: usize = 0;
    while i < find_specs.len()
        invariant
            i <= find_specs.len(),
            fv == find_specs_view(find_specs@),
            mv == bindings_view(members@),
            b0 == key_binding(fv, key@.map_values(|v: Value| v@)),
            agg_fold(fv, mv, b0, i as int) == Outcome::Done(Some(binding@)),
        decreases find_specs.len() - i,
    {
        assert(fv[i as int] == find_specs@[i as int]@);
        if let FindSpec::Aggregate { func, var } = &find_specs[i] {
            let vals = non_null_exec(members, var.as_str());
            match apply_builtin_aggregate_checked(func.as_str(), vals.as_slice()) {
                None => {
                    proof { lemma_agg_fold_stays(fv, mv, b0, i as int + 1, fv.len() as int); }
                    return Err(None);
                },
                Some(Ok(v)) => {
                    binding.insert(agg_key_exec(i), v);
                },
                Some(Err(e)) => {
                    let ec = str_chars(e.as_str());
                    let mc = str_chars("no non-null values in group");
                    proof { lemma_agg_fold_stays(fv, mv, b0, i as int + 1, fv.len() as int); }
                    if contains_chars(ec.as_slice(), mc.as_slice()) {
                        return Ok(None);
                    }
                    return Err(Some(e));
                },
            }
        }
        i = i + 1;
    }
    Ok(Some(binding))
}

proof fn lemma_groups_out_stays(find: Seq<FindSpecV>, gs: Seq<(Seq<ValueV>, Seq<BindingV>)>, k: int)
    requires
        0 <= k <= gs.len(),
        !(groups_out(find, gs.subrange(0, k)) is Done),
    ensures
        groups_out(find, gs) == groups_out(find, gs.subrange(0, k)),
    decreases gs.len() - k,
{
    if k < gs.len() {
        assert(gs.subrange(0, k + 1).drop_last() =~= gs.subrange(0, k));
        lemma_groups_out_stays(find, gs, k + 1);
    } else {
        assert(gs.subrange(0, k) =~= gs);
    }
}

proof fn lemma_group_keys_len(rows: Seq<BindingV>, vars: Seq<Seq<char>>)
    ensures
        forall|i: int| 0 <= i < group_rows(rows, vars).len() ==> (#[trigger] group_rows(rows, vars)[i]).0.len()
            == vars.len(),
    decreases rows.len(),
{
    if rows.len() > 0 {
        lemma_group_keys_len(rows.drop_last(), vars);
        let gs = group_rows(rows.drop_last(), vars);
        let key = group_key(rows.last(), vars);
        assert(key.len() == vars.len());
        lemma_key_pos(gs, key);
        match key_pos(gs, key) {
            Some(i) => {
                let u = gs.update(i, (gs[i].0, gs[i].1.push(rows.last())));
                assert forall|j: int| 0 <= j < u.len() implies (#[trigger] u[j]).0.len() == vars.len() by {
                    if j == i {
                    } else {
                        assert(u[j] == gs[j]);
                    }
                }
            },
            None => {
                let u = gs.push((key, seq![rows.last()]));
                assert forall|j: int| 0 <= j < u.len() implies (#[trigger] u[j]).0.len() == vars.len() by {
                    if j < gs.len() {
                        assert(u[j] == gs[j]);
                    }
                }
            },
        }
    }
}

/// Group bindings by the plain find variables and the `:with` variables,
/// apply the aggregate functions, and return one binding per group, the
/// aggregates under `__agg_{i}`. `Err(None)` when a sum overflows.
fn compute_aggregation(bindings: Vec<Bindings>, find_specs: &Vec<FindSpec>, with_vars: &Vec<String>) -> (r: Result<
    Vec<Bindings>,
    Option<String>,
>)
    ensures
        match spec_aggregation(bindings_view(bindings@), find_specs_view(find_specs@), names_of(with_vars@)) {
            Outcome::Done(v) => r matches Ok(x) && bindings_view(x@) == v,
            Outcome::Failed(m) => r matches Err(Some(x)) && x@ == m,
            Outcome::Panic => r matches Err(None),
        },
{
    let ghost fv = find_specs_view(find_specs@);
    let plain = plain_vars_exec(find_specs);
    if bindings.len() == 0 {
        let mut all_count = plain.len() == 0;
        let mut i: usize = 0;
        while i < find_specs.len()
            invariant
                i <= find_specs.len(),
                fv == find_specs_view(find_specs@),
                all_count == (plain_vars(fv).len() == 0 && forall|j: int| 0 <= j < i ==> is_count(#[trigger] fv[j])),
            decreases find_specs.len() - i,
        {
            assert(fv[i as int] == find_specs@[i as int]@);
            let counts = match &find_specs[i] {
                FindSpec::Aggregate { func, .. } => match func {
                    AggFunc::Count => true,
                    AggFunc::CountDistinct => true,
                    _ => false,
                },
                _ => false,
            };
            all_count = all_count && counts;
            i = i + 1;
        }
        let mut out: Vec<Bindings> = Vec::new();
        if all_count {
            let mut b = Bindings::new();
            let mut k: usize = 0;
            while k < find_specs.len()
                invariant
                    k <= find_specs.len(),
                    b@ == zero_row(k as nat),
                decreases find_specs.len() - k,
            {
                b.insert(agg_key_exec(k), Value::Integer(0));
                k = k + 1;
            }
            out.push(b);
            assert(bindings_view(out@) =~= seq![zero_row(fv.len())]);
        } else {
            assert(bindings_view(out@) =~= Seq::<BindingV>::empty());
        }
        return Ok(out);
    }
    let mut group_vars = plain;
    let mut more: Vec<String> = Vec::new();
    let mut w: usize = 0;
    while w < with_vars.len()
        invariant
            w <= with_vars.len(),
            names_of(more@) == names_of(with_vars@).subrange(0, w as int),
        decreases with_vars.len() - w,
    {
        let ghost before = names_of(more@);
        more.push(with_vars[w].clone());
        assert(names_of(more@) =~= before.push(with_vars@[w as int]@));
        assert(names_of(with_vars@).subrange(0, w + 1) =~= names_of(with_vars@).subrange(0, w as int).push(
            with_vars@[w as int]@,
        ));
        w = w + 1;
    }
    assert(names_of(with_vars@).subrange(0, with_vars.len() as int) =~= names_of(with_vars@));
    let ghost gv1 = names_of(group_vars@);
    let ghost gv2 = names_of(more@);
    group_vars.append(&mut more);
    assert(names_of(group_vars@) =~= gv1 + gv2);
    let (keys, members) = group_rows_exec(&bindings, &group_vars);
    let ghost gs = groups_view(keys@, members@);
    proof { lemma_group_keys_len(bindings_view(bindings@), names_of(group_vars@)); }
    let mut results: Vec<Bindings> = Vec::new();
    let mut g: usize = 0;
    assert(bindings_view(results@) =~= Seq::<BindingV>::empty());
    assert(gs.subrange(0, 0) =~= Seq::<(Seq<ValueV>, Seq<BindingV>)>::empty());
    assert(spec_aggregation(bindings_view(bindings@), fv, names_of(with_vars@)) == groups_out(fv, gs));
    while g < keys.len()
        invariant
            spec_aggregation(bindings_view(bindings@), fv, names_of(with_vars@)) == groups_out(fv, gs),
            g <= keys.len(),
            keys.len() == members.len(),
            fv == find_specs_view(find_specs@),
            gs == groups_view(keys@, members@),
            forall|i: int| 0 <= i < gs.len() ==> (#[trigger] gs[i]).0.len() == names_of(group_vars@).len(),
            names_of(group_vars@).len() >= plain_vars(fv).len(),
            groups_out(fv, gs.subrange(0, g as int)) == Outcome::Done(bindings_view(results@)),
        decreases keys.len() - g,
    {
        assert(gs.subrange(0, g + 1).drop_last() =~= gs.subrange(0, g as int));
        assert(gs.subrange(0, g + 1).last() == gs[g as int]);
        assert(gs[g as int].0.len() == keys@[g as int]@.len());
        match group_out_exec(find_specs, &keys[g], &members[g]) {
            Ok(Some(b)) => {
                let ghost before = bindings_view(results@);
                results.push(b);
                assert(bindings_view(results@) =~= before.push(b@));
            },
            Ok(None) => {},
            Err(e) => {
                proof { lemma_groups_out_stays(fv, gs, g as int + 1); }
                return Err(e);
            },
        }
        g = g + 1;
    }
    assert(gs.subrange(0, keys.len() as int) =~= gs);
    Ok(results)
}

/// The binding key find spec `i` is read from: its variable, or the key of
/// its aggregate.
pub open spec fn project_key(find: Seq<FindSpecV>, i: int) -> Seq<char> {
    match find[i] {
        FindSpecV::Variable(v) => v,
        FindSpecV::Aggregate { .. } => agg_key(i as nat),
        FindSpecV::Window(_) => win_key(i as nat),
    }
}

/// The values of the first `k` find specs in a binding, if all are there.
pub open spec fn project_row(b: BindingV, find: Seq<FindSpecV>, k: int) -> Option<Seq<ValueV>>
    decreases k,
{
    if k <= 0 {
        Some(seq![])
    } else {
        match project_row(b, find, k - 1) {
            None => None,
            Some(vs) => if b.contains_key(project_key(find, k - 1)) {
                Some(vs.push(b[project_key(find, k - 1)]))
            } else {
                None
            },
        }
    }
}

/// The projected rows of the bindings that have every find spec's value.
pub open spec fn project_rows(rows: Seq<BindingV>, find: Seq<FindSpecV>) -> Seq<Seq<ValueV>>
    decreases rows.len(),
{
    if rows.len() == 0 {
        seq![]
    } else {
        let prev = project_rows(rows.drop_last(), find);
        match project_row(rows.last(), find, find.len() as int) {
            Some(vs) => prev.push(vs),
            None => prev,
        }
    }
}

/// Whether some find spec aggregates.
pub open spec fn has_aggregate(find: Seq<FindSpecV>) -> bool {
    exists|i: int| 0 <= i < find.len() && find[i] is Aggregate
}

/// The result rows: the find variables' values, or, with aggregates, the
/// grouped and aggregated rows projected in find order.
pub open spec fn post_process(rows: Seq<BindingV>, find: Seq<FindSpecV>, with_vars: Seq<Seq<char>>) -> Outcome<
    Seq<Seq<ValueV>>,
> {
    if !has_aggregate(find) && !has_window(find) {
        Outcome::Done(extract_rows(rows, find))
    } else {
        let grouped = if has_aggregate(find) {
            spec_aggregation(rows, find, if has_window(find) { Seq::empty() } else { with_vars })
        } else {
            Outcome::Done(rows)
        };
        match grouped {
            Outcome::Done(bs) => if !has_window(find) {
                Outcome::Done(project_rows(bs, find))
            } else if bs.len() > i64::MAX {
                Outcome::Panic
            } else {
                match spec_window(bs, find, builtin_aggregates()) {
                    Ok(ws) => Outcome::Done(project_rows(ws, find)),
                    Err(m) => Outcome::Failed(m),
                }
            },
            Outcome::Failed(m) => Outcome::Failed(m),
            Outcome::Panic => Outcome::Panic,
        }
    }
}

/// Whether the find specs hold a window function.
pub open spec fn has_window(find: Seq<FindSpecV>) -> bool {
    exists|i: int| 0 <= i < find.len() && find[i] is Window
}

fn project_row_exec(b: &Bindings, find_specs: &Vec<FindSpec>) -> (r: Option<Vec<Value>>)
    ensures
        match project_row(b@, find_specs_view(find_specs@), find_specs@.len() as int) {
            Some(vs) => r matches Some(x) && x@.map_values(|v: Value| v@) == vs,
            None => r is None,
        },
{
    let ghost fv = find_specs_view(find_specs@);
    let mut row: Vec<Value> = Vec::new();
    let mut i: usize = 0;
    assert(row@.map_values(|v: Value| v@) =~= Seq::<ValueV>::empty());
    while i < find_specs.len()
        invariant
            i <= find_specs.len(),
            fv == find_specs_view(find_specs@),
            project_row(b@, fv, i as int) == Some(row@.map_values(|v: Value| v@)),
        decreases find_specs.len() - i,
    {
        assert(fv[i as int] == find_specs@[i as int]@);
        let val = match &find_specs[i] {
            FindSpec::Variable(v) => b.get(v.as_str()),
            FindSpec::Aggregate { .. } => {
                let k = agg_key_exec(i);
                b.get(k.as_str())
            },
            FindSpec::Window(_) => {
                let k = win_key_exec(i);
                b.get(k.as_str())
            },
        };
        match val {
            Some(v) => {
                let ghost before = row@.map_values(|v: Value| v@);
                row.push(v.clone());
                assert(row@.map_values(|v: Value| v@) =~= before.push(v@));
            },
            None => {
                proof { lemma_project_none(b@, fv, i as int + 1, fv.len() as int); }
                return None;
            },
        }
        i = i + 1;
    }
    Some(row)
}

proof fn lemma_project_none(b: BindingV, find: Seq<FindSpecV>, k: int, n: int)
    requires
        0 <= k <= n,
        project_row(b, find, k) is None,
    ensures
        project_row(b, find, n) is None,
    decreases n - k,
{
    if k < n {
        lemma_project_none(b, find, k, n - 1);
    }
}

/// Project binding maps to output rows in find-spec order.
pub fn project_find_specs(bindings: &Vec<Bindings>, find_specs: &Vec<FindSpec>) -> (r: Vec<Vec<Value>>)
    ensures
        rows_view(r@) == project_rows(bindings_view(bindings@), find_specs_view(find_specs@)),
{
    let ghost bv = bindings_view(bindings@);
    let ghost fv = find_specs_view(find_specs@);
    let mut results: Vec<Vec<Value>> = Vec::new();
    let mut i: usize = 0;
    assert(rows_view(results@) =~= Seq::<Seq<ValueV>>::empty());
    while i < bindings.len()
        invariant
            i <= bindings.len(),
            bv == bindings_view(bindings@),
            fv == find_specs_view(find_specs@),
            rows_view(results@) == project_rows(bv.subrange(0, i as int), fv),
        decreases bindings.len() - i,
    {
        assert(bv.subrange(0, i + 1).drop_last() =~= bv.subrange(0, i as int));
        assert(bv.subrange(0, i + 1).last() == bindings@[i as int]@);
        if let Some(row) = project_row_exec(&bindings[i], find_specs) {
            let ghost before = rows_view(results@);
            results.push(row);
            assert(rows_view(results@) =~= before.push(row@.map_values(|v: Value| v@)));
        }
        i = i + 1;
    }
    assert(bv.subrange(0, bindings.len() as int) =~= bv);
    results
}

/// Unified post-processing: plain-variable extraction, or grouping and
/// aggregation then projection in find-spec order. The registry holds the
/// built-in aggregates only, which are evaluated in batch.
pub fn apply_post_processing(
    bindings: Vec<Bindings>,
    find_specs: &Vec<FindSpec>,
    with_vars: &Vec<String>,
    registry: &FunctionRegistry,
) -> (r: Result<Vec<Vec<Value>>, String>)
    requires
        !(post_process(bindings_view(bindings@), find_specs_view(find_specs@), names_of(with_vars@)) is Panic),
    ensures
        match post_process(bindings_view(bindings@), find_specs_view(find_specs@), names_of(with_vars@)) {
            Outcome::Done(v) => r matches Ok(x) && rows_view(x@) == v,
            Outcome::Failed(m) => r matches Err(x) && x@ == m,
            Outcome::Panic => false,
        },
{
    proof { use_type_invariant(registry); }
    match post_processing(bindings, find_specs, with_vars, registry) {
        Ok(v) => Ok(v),
        Err(Some(m)) => Err(m),
        Err(None) => Err(String::new()),
    }
}

/// Post-processing of the matched rows: plain extraction, or aggregation
/// then projection. `Err(None)` when a sum overflows.
fn post_processing(bindings: Vec<Bindings>, find_specs: &Vec<FindSpec>, with_vars: &Vec<String>, registry: &FunctionRegistry) -> (r: Result<
    Vec<Vec<Value>>,
    Option<String>,
>)
    ensures
        match post_process(bindings_view(bindings@), find_specs_view(find_specs@), names_of(with_vars@)) {
            Outcome::Done(v) => r matches Ok(x) && rows_view(x@) == v,
            Outcome::Failed(m) => r matches Err(Some(x)) && x@ == m,
            Outcome::Panic => r matches Err(None),
        },
{
    proof { use_type_invariant(registry); }
    let ghost fv = find_specs_view(find_specs@);
    let mut has_aggregates = false;
    let mut has_windows = false;
    let mut i: usize = 0;
    while i < find_specs.len()
        invariant
            i <= find_specs.len(),
            fv == find_specs_view(find_specs@),
            has_aggregates == exists|j: int| 0 <= j < i && fv[j] is Aggregate,
            has_windows == exists|j: int| 0 <= j < i && fv[j] is Window,
        decreases find_specs.len() - i,
    {
        assert(fv[i as int] == find_specs@[i as int]@);
        match &find_specs[i] {
            FindSpec::Aggregate { .. } => {
                has_aggregates = true;
            },
            FindSpec::Window(_) => {
                has_windows = true;
            },
            _ => {},
        }
        i = i + 1;
    }
    if !has_aggregates && !has_windows {
        return Ok(extract_variables(bindings, find_specs));
    }
    let mut working = if has_aggregates {
        let no_vars: Vec<String> = Vec::new();
        assert(names_of(no_vars@) =~= Seq::<Seq<char>>::empty());
        match compute_aggregation(bindings, find_specs, if has_windows { &no_vars } else { with_vars }) {
            Ok(w) => w,
            Err(e) => return Err(e),
        }
    } else {
        bindings
    };
    if has_windows {
        if working.len() as u128 > 9223372036854775807u128 {
            return Err(None);
        }
        match apply_window_functions(&mut working, find_specs, registry) {
            Ok(()) => {},
            Err(m) => return Err(Some(m)),
        }
    }
    Ok(project_find_specs(&working, find_specs))
}

/// The message of a query whose expression evaluation overflows.
pub open spec fn overflow_error() -> Seq<char> {
    "integer overflow in expression evaluation"@
}

/// The column headers of the find specs.
pub open spec fn headers(find: Seq<FindSpec>) -> Seq<Seq<char>> {
    find.map_values(|f: FindSpec| find_display(f))
}

/// A query's answer from its rows: the headers and the post-processed rows,
/// or the error.
pub open spec fn answer(q: DatalogQuery, rows: Option<Seq<BindingV>>) -> Result<(Seq<Seq<char>>, Seq<Seq<ValueV>>), Seq<char>> {
    match rows {
        None => Err(overflow_error()),
        Some(rs) => match post_process(rs, find_specs_view(q.find@), names_of(q.with_vars@)) {
            Outcome::Done(v) => Ok((headers(q.find@), v)),
            Outcome::Failed(m) => Err(m),
            Outcome::Panic => Err(overflow_error()),
        },
    }
}

/// The rows of a query without rules over the facts: its patterns joined
/// in planned order, its disjunctions, its negations, then its expression
/// clauses (`None` when an expression overflows).
pub open spec fn plain_rows(q: DatalogQuery, facts: Seq<Triple>) -> Option<Seq<BindingV>> {
    let cs = clause_seq_view(q.where_clauses@);
    let rows0 = join_fold(planned_patterns(clause_patterns(q.where_clauses@)), facts, seq![Map::empty()]);
    match spec_or(cs, rows0, facts) {
        None => None,
        Some(r1) => match not_filter(cs, r1, facts, false) {
            None => None,
            Some(r2) => expr_clauses_rows(r2, cs),
        },
    }
}

/// The patterns of the top-level rule invocations, or the error of the
/// first of the wrong arity.
pub open spec fn invocation_patterns(invs: Seq<InvocationV>) -> Result<Seq<PatternV>, Seq<char>>
    decreases invs.len(),
{
    if invs.len() == 0 {
        Ok(seq![])
    } else {
        match invocation_patterns(invs.drop_last()) {
            Err(m) => Err(m),
            Ok(ps) => match invocation_pattern(invs.last().0, invs.last().1) {
                Some(p) => Ok(ps.push(p)),
                None => Err(invocation_error(invs.last().0, invs.last().1.len())),
            },
        }
    }
}

/// The rows of a query with rules over the facts with the derived ones:
/// its patterns and top-level rule invocations joined, its disjunctions,
/// its negations (rule invocations in them matched against derived facts),
/// then its expression clauses; or the error of a rule invocation of the
/// wrong arity.
pub open spec fn rule_rows(q: DatalogQuery, facts: Seq<Triple>) -> Result<Option<Seq<BindingV>>, Seq<char>> {
    let cs = clause_seq_view(q.where_clauses@);
    match invocation_patterns(top_invocations(q.where_clauses@)) {
        Err(m) => Err(m),
        Ok(ips) => {
            let rows0 = join_fold(clause_patterns(q.where_clauses@) + ips, facts, seq![Map::empty()]);
            Ok(
                match spec_or(cs, rows0, facts) {
                    None => None,
                    Some(r1) => match not_filter(cs, r1, facts, true) {
                        None => None,
                        Some(r2) => expr_clauses_rows(r2, cs),
                    },
                },
            )
        },
    }
}

/// Whether a query result is the given answer.
pub open spec fn is_answer(r: Result<QueryResult, String>, a: Result<(Seq<Seq<char>>, Seq<Seq<ValueV>>), Seq<char>>) -> bool {
    match a {
        Ok((vars, rows)) => r matches Ok(QueryResult::QueryResults { vars: v, results: x }) && names_of(v@) == vars
            && rows_view(x@) == rows,
        Err(m) => r matches Err(x) && x@ == m,
    }
}

/// Whether a query invokes rules anywhere in its clauses.
pub open spec fn query_uses_rules(q: DatalogQuery) -> bool {
    exists|i: int| 0 <= i < q.where_clauses@.len() && #[trigger] clause_preds(q.where_clauses@[i]).len() > 0
}

fn headers_exec(find_specs: &Vec<FindSpec>) -> (r: Vec<String>)
    ensures
        names_of(r@) == headers(find_specs@),
{
    let mut out: Vec<String> = Vec::new();
    let mut i: usize = 0;
    while i < find_specs.len()
        invariant
            i <= find_specs.len(),
            out@.len() == i,
            forall|j: int| 0 <= j < i ==> (#[trigger] out@[j])@ == find_display(find_specs@[j]),
        decreases find_specs.len() - i,
    {
        out.push(find_specs[i].display_name());
        i = i + 1;
    }
    assert(names_of(out@) =~= headers(find_specs@));
    out
}

/// The rows (after negation, expression clauses and post-processing) turned
/// into a result.
fn finish_query(
    query: &DatalogQuery,
    rows: Option<Vec<Bindings>>,
    registry: &FunctionRegistry,
) -> (r: Result<QueryResult, String>)
    ensures
        is_answer(
            r,
            answer(
                *query,
                match rows {
                    Some(v) => Some(bindings_view(v@)),
                    None => None,
                },
            ),
        ),
{
    let rows = match rows {
        Some(v) => v,
        None => return Err(to_owned_string("integer overflow in expression evaluation")),
    };
    match post_processing(rows, &query.find, &query.with_vars, registry) {
        Ok(results) => {
            let vars = headers_exec(&query.find);
            Ok(QueryResult::QueryResults { vars, results })
        },
        Err(Some(e)) => Err(e),
        Err(None) => Err(to_owned_string("integer overflow in expression evaluation")),
    }
}

/// The rows of the query's clauses over the facts, after the joined `rows`:
/// disjunctions, negations, expression clauses.
fn refine_rows(query: &DatalogQuery, rows: Vec<Bindings>, facts: &Vec<Fact>, with_rules: bool) -> (r: Option<Vec<Bindings>>)
    ensures
        match spec_or(clause_seq_view(query.where_clauses@), bindings_view(rows@), fact_triples(facts@)) {
            None => r is None,
            Some(r1) => match not_filter(clause_seq_view(query.where_clauses@), r1, fact_triples(facts@), with_rules) {
                None => r is None,
                Some(r2) => match expr_clauses_rows(r2, clause_seq_view(query.where_clauses@)) {
                    None => r is None,
                    Some(r3) => r matches Some(x) && bindings_view(x@) == r3,
                },
            },
        },
{
    let rows = match apply_or_clauses(&query.where_clauses, rows, facts) {
        Some(v) => v,
        None => return None,
    };
    let rows = match not_filter_exec(&query.where_clauses, rows, facts, with_rules) {
        Some(v) => v,
        None => return None,
    };
    apply_expr_clauses_checked(rows, query.where_clauses.as_slice())
}

/// Converts the top-level rule invocations to patterns.
fn invocation_patterns_exec(invs: &Vec<(String, Vec<EdnValue>)>) -> (r: Result<Vec<Pattern>, String>)
    ensures
        match invocation_patterns(invocations_view(invs@)) {
            Ok(ps) => r matches Ok(x) && patterns_view(x@) == ps,
            Err(m) => r matches Err(x) && x@ == m,
        },
{
    let ghost iv = invocations_view(invs@);
    let mut out: Vec<Pattern> = Vec::new();
    let mut i: usize = 0;
    assert(patterns_view(out@) =~= Seq::<PatternV>::empty());
    while i < invs.len()
        invariant
            i <= invs.len(),
            iv == invocations_view(invs@),
            invocation_patterns(iv.subrange(0, i as int)) == Ok::<Seq<PatternV>, Seq<char>>(patterns_view(out@)),
        decreases invs.len() - i,
    {
        assert(iv.subrange(0, i + 1).drop_last() =~= iv.subrange(0, i as int));
        assert(iv.subrange(0, i + 1).last() == iv[i as int]);
        match rule_invocation_to_pattern(invs[i].0.as_str(), invs[i].1.as_slice()) {
            Ok(p) => {
                let ghost before = patterns_view(out@);
                out.push(p);
                assert(patterns_view(out@) =~= before.push(p@));
            },
            Err(e) => {
                proof { lemma_invocation_patterns_err(iv, i as int + 1); }
                return Err(e);
            },
        }
        i = i + 1;
    }
    assert(iv.subrange(0, invs.len() as int) =~= iv);
    Ok(out)
}

proof fn lemma_invocation_patterns_err(iv: Seq<InvocationV>, k: int)
    requires
        0 <= k <= iv.len(),
        invocation_patterns(iv.subrange(0, k)) is Err,
    ensures
        invocation_patterns(iv) == invocation_patterns(iv.subrange(0, k)),
    decreases iv.len() - k,
{
    if k < iv.len() {
        assert(iv.subrange(0, k + 1).drop_last() =~= iv.subrange(0, k));
        lemma_invocation_patterns_err(iv, k + 1);
    } else {
        assert(iv.subrange(0, k) =~= iv);
    }
}

/// The message of a rule head that is empty.
pub open spec fn empty_head_error() -> Seq<char> {
    "Rule head cannot be empty"@
}

/// The message of a rule head that does not start with a symbol.
pub open spec fn head_symbol_error() -> Seq<char> {
    "Rule head must start with a symbol (predicate name)"@
}

/// The predicate a rule defines: the symbol its head starts with.
pub open spec fn rule_predicate(r: RuleV) -> Result<Seq<char>, Seq<char>> {
    if r.head.len() == 0 {
        Err(empty_head_error())
    } else {
        match r.head[0] {
            EdnV::Symbol(s) => Ok(s),
            _ => Err(head_symbol_error()),
        }
    }
}

/// The predicates that a query's rule invocations name, in order (nested
/// ones included).
pub open spec fn query_rule_preds(q: DatalogQuery) -> Seq<Seq<char>> {
    clauses_invocations(q.where_clauses@).map_values(|v: InvocationV| v.0)
}

/// What a rule query answers over the facts `ts` (the base facts and the
/// derived ones): the answer of its rows, or why its invocations have no
/// patterns.
pub open spec fn rule_answered(q: DatalogQuery, ts: Seq<Triple>, r: Result<QueryResult, String>) -> bool {
    match rule_rows(q, ts) {
        Ok(rows) => is_answer(r, answer(q, rows)),
        Err(m) => r matches Err(x) && x@ == m,
    }
}

/// What a rule query gives over the facts `facts` when its rules can be
/// stratified: the stratified model of the rules it names (from a store of
/// those facts with counter 0, limit 1000), then the query over the base and
/// derived facts.
pub open spec fn stratified_rule_query(
    q: DatalogQuery,
    facts: Seq<Fact>,
    groups: Seq<(Seq<char>, Seq<RuleV>)>,
    r: Result<QueryResult, String>,
) -> bool {
    match stratified_model(facts, 0, groups, query_rule_preds(q), 1000) {
        Outcome::Done(ts) => rule_answered(q, ts, r),
        Outcome::Failed(m) => r matches Err(x) && x@ == m,
        Outcome::Panic => r matches Err(x) && x@ == overflow_error(),
    }
}

/// What a rule query whose rules have no negated clause gives over the
/// facts `facts`: stratified evaluation of the rules it names (limit 1000),
/// then the query over the base and derived facts.
pub open spec fn positive_rule_query(
    q: DatalogQuery,
    facts: Seq<Fact>,
    groups: Seq<(Seq<char>, Seq<RuleV>)>,
    r: Result<QueryResult, String>,
) -> bool {
    match positive_model(facts, groups, query_rule_preds(q), 1000) {
        Outcome::Done(ts) => rule_answered(q, ts, r),
        Outcome::Failed(m) => r matches Err(x) && x@ == m,
        Outcome::Panic => r matches Err(x) && x@ == overflow_error(),
    }
}

/// Every fact valid at a time is one of the facts.
proof fn lemma_valid_filter_asserted(fs: Seq<Fact>, t: i64)
    requires
        all_assertions(fs),
    ensures
        all_assertions(valid_filter(fs, t)),
    decreases fs.len(),
{
    if fs.len() > 0 {
        lemma_valid_filter_asserted(fs.drop_last(), t);
        let p = valid_filter(fs.drop_last(), t);
        assert forall|j: int| 0 <= j < p.push(fs.last()).len() implies (#[trigger] p.push(fs.last())[j]).asserted by {
            if j < p.len() {
                assert(p.push(fs.last())[j] == p[j]);
            }
        }
    }
}

/// The facts a query sees are all assertions.
proof fn lemma_query_facts_asserted(records: Seq<Fact>, as_of: Option<AsOf>, valid_at: Option<ValidAt>, now: i64)
    ensures
        all_assertions(query_facts(records, as_of, valid_at, now)),
{
    let tx = match as_of {
        Some(AsOf::Counter(n)) => as_of_prefix(records, Some(n), None, records.len() as int),
        Some(AsOf::Timestamp(t)) => as_of_prefix(records, None, Some(t), records.len() as int),
        None => records,
    };
    lemma_net_asserted_asserted(tx, tx.len() as int);
    let a = net_asserted(tx);
    assert(all_assertions(a));
    match valid_at {
        Some(ValidAt::Timestamp(t)) => lemma_valid_filter_asserted(a, t),
        Some(ValidAt::AnyValidTime) => {},
        None => lemma_valid_filter_asserted(a, now),
    }
}

/// The message when a query matches a per-fact temporal pseudo-attribute
/// without `:valid-at :any-valid-time`.
pub open spec fn pseudo_valid_time_error() -> Seq<char> {
    "temporal pseudo-attributes :db/valid-from, :db/valid-to, :db/tx-count, and :db/tx-id require :any-valid-time; add :any-valid-time to your query"@
}

/// Whether a query matches a per-fact temporal pseudo-attribute (at any
/// depth) without asking for `:valid-at :any-valid-time`.
pub open spec fn needs_any_valid_time(q: DatalogQuery) -> bool {
    clauses_use_pseudo(q.where_clauses@) && !(q.valid_at matches Some(ValidAt::AnyValidTime))
}

/// Whether a query matches a per-fact pseudo-attribute without
/// `:any-valid-time`.
fn lacks_any_valid_time(query: &DatalogQuery) -> (r: bool)
    ensures
        r == needs_any_valid_time(*query),
{
    clauses_use_per_fact_pseudo_attr(&query.where_clauses) && match query.valid_at {
        Some(ValidAt::AnyValidTime) => false,
        _ => true,
    }
}

/// What executing a query over the executor's state does: a query that
/// matches a per-fact pseudo-attribute without `:any-valid-time` fails
/// before anything else.
pub open spec fn query_done(
    q: DatalogQuery,
    records: Seq<Fact>,
    groups: Seq<(Seq<char>, Seq<RuleV>)>,
    now: i64,
    r: Result<QueryResult, String>,
) -> bool {
    let facts = query_facts(records, q.as_of, q.valid_at, now);
    if needs_any_valid_time(q) {
        r matches Err(m) && m@ == pseudo_valid_time_error()
    } else if !query_uses_rules(q) {
        is_answer(r, answer(q, plain_rows(q, fact_triples(facts))))
    } else {
        &&& (!stratifiable(groups) ==> (r matches Err(m) && stratify_message(m@)))
        &&& (stratifiable(groups) ==> stratified_rule_query(q, facts, groups, r))
        &&& (no_negated_clauses(groups) ==> positive_rule_query(q, facts, groups, r))
        &&& r is Ok ==> stratifiable(groups) && exists|derived: Seq<Fact>|
            #![trigger extends_with_assertions(facts, derived)]
            extends_with_assertions(facts, derived) && derived_from_heads(facts, derived, groups) && match rule_rows(
                q,
                fact_triples(net_asserted(derived)),
            ) {
                Ok(rows) => is_answer(r, answer(q, rows)),
                Err(m) => false,
            }
    }
}

impl DatalogExecutor {
    /// Execute a query at time `now` (the default valid time).
    fn execute_query(&self, query: DatalogQuery, now: i64) -> (r: Result<QueryResult, String>)
        ensures
            query_done(query, self.records(), self.rule_groups(), now, r),
    {
        if query.uses_rules() {
            return self.execute_query_with_rules(query, now);
        }
        if lacks_any_valid_time(&query) {
            return Err(to_owned_string(
                "temporal pseudo-attributes :db/valid-from, :db/valid-to, :db/tx-count, and :db/tx-id require :any-valid-time; add :any-valid-time to your query",
            ));
        }
        // Apply temporal filters before pattern matching
        let facts = self.filter_facts_for_query(&query, now);
        let valid_at_value = match query.valid_at {
            Some(ValidAt::Timestamp(t)) => Value::Integer(t),
            Some(ValidAt::AnyValidTime) => Value::Null,
            None => Value::Integer(now),
        };
        let matcher = PatternMatcher::from_slice_with_valid_at(clone_facts(&facts), valid_at_value);
        let patterns = query.get_patterns();
        // Plan patterns: reorder by selectivity.
        let planned = plan_patterns(&patterns);
        let bindings = matcher.match_patterns(planned.as_slice());
        let rows = refine_rows(&query, bindings, &facts, false);
        finish_query(&query, rows, &self.functions)
    }

    /// Execute a query that uses rules: the rules are evaluated by strata
    /// over the query's facts, then the query is matched against the facts
    /// with the derived ones.
    pub fn execute_query_with_rules(&self, query: DatalogQuery, now: i64) -> (r: Result<QueryResult, String>)
        ensures
            needs_any_valid_time(query) ==> (r matches Err(m) && m@ == pseudo_valid_time_error()),
            r is Ok ==> stratifiable(self.rule_groups()),
            !needs_any_valid_time(query) && !stratifiable(self.rule_groups()) ==> (r matches Err(m) && stratify_message(
                m@,
            )),
            !needs_any_valid_time(query) && stratifiable(self.rule_groups()) ==> stratified_rule_query(
                query,
                query_facts(self.records(), query.as_of, query.valid_at, now),
                self.rule_groups(),
                r,
            ),
            !needs_any_valid_time(query) && no_negated_clauses(self.rule_groups()) ==> positive_rule_query(
                query,
                query_facts(self.records(), query.as_of, query.valid_at, now),
                self.rule_groups(),
                r,
            ),
            r is Ok ==> exists|derived: Seq<Fact>|
                #![trigger extends_with_assertions(query_facts(self.records(), query.as_of, query.valid_at, now), derived)]
                extends_with_assertions(query_facts(self.records(), query.as_of, query.valid_at, now), derived)
                    && derived_from_heads(query_facts(self.records(), query.as_of, query.valid_at, now), derived, self.rule_groups())
                    && match rule_rows(
                    query,
                    fact_triples(net_asserted(derived)),
                ) {
                    Ok(rows) => is_answer(r, answer(query, rows)),
                    Err(m) => false,
                },
    {
        // All predicates (including inside not bodies) are evaluated.
        let invs = query.get_rule_invocations();
        let mut predicates: Vec<String> = Vec::new();
        let mut i: usize = 0;
        while i < invs.len()
            invariant
                i <= invs.len(),
                names_of(predicates@) == invocations_view(invs@).map_values(|v: InvocationV| v.0).subrange(0, i as int),
            decreases invs.len() - i,
        {
            let ghost before = names_of(predicates@);
            let c = invs[i].0.clone();
            predicates.push(c);
            assert(names_of(predicates@) =~= before.push(c@));
            assert(invocations_view(invs@).map_values(|v: InvocationV| v.0).subrange(0, i + 1) =~= before.push(c@));
            i = i + 1;
        }
        assert(invocations_view(invs@).map_values(|v: InvocationV| v.0).subrange(0, invs.len() as int)
            =~= query_rule_preds(query));
        if lacks_any_valid_time(&query) {
            return Err(to_owned_string(
                "temporal pseudo-attributes :db/valid-from, :db/valid-to, :db/tx-count, and :db/tx-id require :any-valid-time; add :any-valid-time to your query",
            ));
        }
        // Apply temporal filters before evaluating recursive rules
        let facts = self.filter_facts_for_query(&query, now);
        let valid_at_value = match query.valid_at {
            Some(ValidAt::Timestamp(t)) => Value::Integer(t),
            Some(ValidAt::AnyValidTime) => Value::Null,
            None => Value::Integer(now),
        };
        let mut filtered_storage = FactStorage::new();
        let mut k: usize = 0;
        while k < facts.len()
            invariant
                k <= facts.len(),
                filtered_storage.records() == facts@.subrange(0, k as int),
                filtered_storage.counter() == 0,
            decreases facts.len() - k,
        {
            filtered_storage.load_fact(facts[k].clone());
            assert(facts@.subrange(0, k + 1) =~= facts@.subrange(0, k as int).push(facts@[k as int]));
            k = k + 1;
        }
        assert(facts@.subrange(0, facts.len() as int) =~= facts@);
        let evaluator = StratifiedEvaluator::new(filtered_storage, self.rules.clone(), 1000);
        proof {
            lemma_query_facts_asserted(self.records(), query.as_of, query.valid_at, now);
        }
        let derived_storage = match evaluator.evaluate(predicates.as_slice()) {
            None => return Err(to_owned_string("integer overflow in expression evaluation")),
            Some(Err(e)) => return Err(e),
            Some(Ok(d)) => d,
        };
        let ghost dt = fact_triples(net_asserted(derived_storage.records()));
        // Top-level rule invocations become positive-match patterns.
        let mut all_patterns = query.get_patterns();
        let tops = query.get_top_level_rule_invocations();
        let mut more = match invocation_patterns_exec(&tops) {
            Ok(v) => v,
            Err(e) => return Err(e),
        };
        let ghost p1 = patterns_view(all_patterns@);
        let ghost p2 = patterns_view(more@);
        all_patterns.append(&mut more);
        assert(patterns_view(all_patterns@) =~= p1 + p2);
        let derived_facts = derived_storage.get_asserted_facts();
        let matcher = PatternMatcher::from_slice_with_valid_at(clone_facts(&derived_facts), valid_at_value);
        let bindings = matcher.match_patterns(all_patterns.as_slice());
        let rows = refine_rows(&query, bindings, &derived_facts, true);
        let r = finish_query(&query, rows, &self.functions);
        assert(rule_answered(query, dt, r));
        proof {
            let qf = query_facts(self.records(), query.as_of, query.valid_at, now);
            assert(extends_with_assertions(qf, derived_storage.records()));
            assert(derived_from_heads(qf, derived_storage.records(), self.rule_groups()));
            assert(stratifiable(self.rule_groups()));
        }
        r
    }

    /// Execute a rule command: register the rule under its head's predicate.
    fn execute_rule(&mut self, rule: Rule) -> (r: Result<QueryResult, String>)
        ensures
            final(self).records() == old(self).records(),
            final(self).counter() == old(self).counter(),
            final(self).function_entries() == old(self).function_entries(),
            match rule_predicate(rule@) {
                Ok(p) => r matches Ok(QueryResult::Done) && final(self).rule_groups() == with_rule(
                    old(self).rule_groups(),
                    p,
                    rule@,
                ),
                Err(m) => r matches Err(x) && x@ == m && final(self).rule_groups() == old(self).rule_groups(),
            },
    {
        assert(rule@.head.len() == rule.head@.len());
        if rule.head.len() == 0 {
            return Err(to_owned_string("Rule head cannot be empty"));
        }
        assert(rule@.head[0] == rule.head@[0]@);
        let predicate = match &rule.head[0] {
            EdnValue::Symbol(s) => s.clone(),
            _ => return Err(to_owned_string("Rule head must start with a symbol (predicate name)")),
        };
        let _ = self.rules.register_rule(predicate, rule);
        Ok(QueryResult::Done)
    }

    /// Execute a Datalog command, with `now` as the current time for the
    /// default valid-time filter of queries.
    pub fn execute_at(&mut self, command: DatalogCommand, now: i64) -> (r: Result<QueryResult, String>)
        ensures
            final(self).function_entries() == old(self).function_entries(),
            match command {
                DatalogCommand::Transact(tx) => {
                    &&& final(self).rule_groups() == old(self).rule_groups()
                    &&& match tx_tuples(tx@.facts) {
                        Err(m) => r matches Err(x) && x@ == m && final(self).records() == old(self).records()
                            && final(self).counter() == old(self).counter(),
                        Ok(ts) => if old(self).counter() == u64::MAX {
                            r matches Err(x) && x@ == transaction_failed() && final(self).records() == old(
                                self,
                            ).records() && final(self).counter() == old(self).counter()
                        } else {
                            r matches Ok(QueryResult::Transacted(tx_id)) && final(self).counter() == old(self).counter()
                                + 1 && shapes(final(self).records()) == shapes(old(self).records()) + Seq::new(
                                ts.len(),
                                |i: int| assertion_shape(ts[i], tx_options(tx@), tx_id, final(self).counter()),
                            )
                        },
                    }
                },
                DatalogCommand::Retract(tx) => {
                    &&& final(self).rule_groups() == old(self).rule_groups()
                    &&& match tx_tuples(tx@.facts) {
                        Err(m) => r matches Err(x) && x@ == m && final(self).records() == old(self).records()
                            && final(self).counter() == old(self).counter(),
                        Ok(ts) => if old(self).counter() == u64::MAX {
                            r matches Err(x) && x@ == retraction_failed() && final(self).records() == old(
                                self,
                            ).records() && final(self).counter() == old(self).counter()
                        } else {
                            r matches Ok(QueryResult::Retracted(tx_id)) && final(self).counter() == old(self).counter()
                                + 1 && shapes(final(self).records()) == shapes(old(self).records()) + Seq::new(
                                ts.len(),
                                |i: int| retraction_shape(ts[i], tx_id, final(self).counter()),
                            )
                        },
                    }
                },
                DatalogCommand::Query(q) => {
                    &&& final(self).records() == old(self).records()
                    &&& final(self).counter() == old(self).counter()
                    &&& final(self).rule_groups() == old(self).rule_groups()
                    &&& query_done(q, old(self).records(), old(self).rule_groups(), now, r)
                },
                DatalogCommand::Rule(rule) => {
                    &&& final(self).records() == old(self).records()
                    &&& final(self).counter() == old(self).counter()
                    &&& match rule_predicate(rule@) {
                        Ok(p) => r matches Ok(QueryResult::Done) && final(self).rule_groups() == with_rule(
                            old(self).rule_groups(),
                            p,
                            rule@,
                        ),
                        Err(m) => r matches Err(x) && x@ == m && final(self).rule_groups() == old(self).rule_groups(),
                    }
                },
            },
    {
        match command {
            DatalogCommand::Transact(tx) => self.execute_transact(tx),
            DatalogCommand::Retract(tx) => self.execute_retract(tx),
            DatalogCommand::Query(query) => self.execute_query(query, now),
            DatalogCommand::Rule(rule) => self.execute_rule(rule),
        }
    }

    /// Execute a Datalog command at the current wall-clock time.
    pub fn execute(&mut self, command: DatalogCommand) -> (r: Result<QueryResult, String>)
        ensures
            final(self).function_entries() == old(self).function_entries(),
            command is Query ==> final(self).records() == old(self).records() && final(self).counter() == old(
                self,
            ).counter() && final(self).rule_groups() == old(self).rule_groups() && exists|now: i64|
                query_done(command->Query_0, old(self).records(), old(self).rule_groups(), now, r),
            command is Rule ==> final(self).records() == old(self).records() && final(self).counter() == old(
                self,
            ).counter() && match rule_predicate(command->Rule_0@) {
                Ok(p) => r matches Ok(QueryResult::Done) && final(self).rule_groups() == with_rule(
                    old(self).rule_groups(),
                    p,
                    command->Rule_0@,
                ),
                Err(m) => r matches Err(x) && x@ == m && final(self).rule_groups() == old(self).rule_groups(),
            },
            command is Transact ==> final(self).rule_groups() == old(self).rule_groups() && match tx_tuples(
                command->Transact_0@.facts,
            ) {
                Err(m) => r matches Err(x) && x@ == m && final(self).records() == old(self).records(),
                Ok(ts) => if old(self).counter() == u64::MAX {
                    r matches Err(x) && x@ == transaction_failed() && final(self).records() == old(self).records()
                } else {
                    r matches Ok(QueryResult::Transacted(tx_id)) && final(self).counter() == old(self).counter() + 1
                        && shapes(final(self).records()) == shapes(old(self).records()) + Seq::new(
                        ts.len(),
                        |i: int| assertion_shape(ts[i], tx_options(command->Transact_0@), tx_id, final(self).counter()),
                    )
                },
            },
            command is Retract ==> final(self).rule_groups() == old(self).rule_groups() && match tx_tuples(
                command->Retract_0@.facts,
            ) {
                Err(m) => r matches Err(x) && x@ == m && final(self).records() == old(self).records(),
                Ok(ts) => if old(self).counter() == u64::MAX {
                    r matches Err(x) && x@ == retraction_failed() && final(self).records() == old(self).records()
                } else {
                    r matches Ok(QueryResult::Retracted(tx_id)) && final(self).counter() == old(self).counter() + 1
                        && shapes(final(self).records()) == shapes(old(self).records()) + Seq::new(
                        ts.len(),
                        |i: int| retraction_shape(ts[i], tx_id, final(self).counter()),
                    )
                },
            },
    {
        let now = tx_id_now() as i64;
        self.execute_at(command, now)
    }
}

} // verus!
