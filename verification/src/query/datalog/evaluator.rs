//! Rule evaluation: semi-naive fixed-point iteration for recursive rules, and
//! stratified evaluation of rules with negation.
//!
//! Derived facts are stored under the attribute `:predicate`: a two-argument
//! head `(reachable ?x ?y)` derives `[?x :reachable ?y]`, a one-argument head
//! `(blocked ?x)` derives `[?x :blocked true]`.
use vstd::prelude::*;
use crate::graph::types::{Fact, Value, ValueV, clone_facts, value_eq};
use crate::graph::storage::{
    FactStorage, assertion_record, counter_exhausted_error, lemma_asserted_visible, lemma_net_asserted_push,
    lemma_net_asserted_push_new, max_count, net_asserted, net_kept, net_prefix, same_triple, without_triple,
};
use crate::ids::EntityId;
use crate::query::datalog::bindings::{Bindings, bindings_view, name_set};
use crate::query::datalog::expr::{apply_expr_clauses_checked, expr_clauses_rows};
use crate::query::datalog::matcher::{
    BindingV, Triple, PatternMatcher, edn_to_entity_id, edn_to_value, edn_to_value_error, fact_triple,
    fact_triples, join_fold, edn_debug_text, spec_edn_to_value, spec_entity_id,
};
use crate::query::datalog::rules::{
    RuleRegistry, distinct_predicates, group_index, lemma_register_then_get, lemma_rules_for_index, rules_for, rules_view,
    with_rule,
};
use crate::query::datalog::types::{
    ClauseV, EdnV, EdnValue, Pattern, PatternV, Rule, RuleV, WhereClause, clause_seq_view, clause_view, cv_preds, cvs_preds, edn_is_var,
    edn_seq_view, lemma_clause_preds_view, patterns_view, strs_view,
};
use crate::text::{concat2, concat3, nat_text, str_is, to_owned_string, usize_to_string};

verus! {

/// The outcome of an evaluation: a result, an error message, or a panic of
/// the expression evaluator (integer division overflow).
pub enum Outcome<T> {
    Done(T),
    Failed(Seq<char>),
    Panic,
}

/// The attribute under which facts of predicate `p` are stored: `:p`.
pub open spec fn pred_attr(p: Seq<char>) -> Seq<char> {
    ":"@ + p
}

/// The variable that stands for the value of a one-argument predicate.
pub open spec fn rule_value_var() -> Seq<char> {
    "?_rule_value"@
}

/// The pattern a rule invocation stands for: `(p ?x)` is `[?x :p ?_rule_value]`,
/// `(p ?x ?y)` is `[?x :p ?y]`; other arities have none.
pub open spec fn invocation_pattern(pred: Seq<char>, args: Seq<EdnV>) -> Option<PatternV> {
    if args.len() == 1 {
        Some(PatternV {
            entity: args[0],
            attribute: EdnV::Keyword(pred_attr(pred)),
            value: EdnV::Symbol(rule_value_var()),
            valid_from: None,
            valid_to: None,
        })
    } else if args.len() == 2 {
        Some(PatternV {
            entity: args[0],
            attribute: EdnV::Keyword(pred_attr(pred)),
            value: args[1],
            valid_from: None,
            valid_to: None,
        })
    } else {
        None
    }
}

/// The message for a rule invocation of the wrong arity.
pub open spec fn invocation_error(pred: Seq<char>, n: nat) -> Seq<char> {
    "Rule invocation '"@ + pred + "' must have 1 or 2 arguments, got "@ + nat_text(n)
}

/// The EDN value a stored value is written back as; `Null` becomes the symbol `nil`.
pub open spec fn stored_edn(v: ValueV) -> EdnV {
    match v {
        ValueV::String(s) => EdnV::String(s),
        ValueV::Integer(i) => EdnV::Integer(i),
        ValueV::Float(f) => EdnV::Float(f),
        ValueV::Boolean(b) => EdnV::Boolean(b),
        ValueV::Ref(u) => EdnV::Uuid(u),
        ValueV::Keyword(k) => EdnV::Keyword(k),
        ValueV::Null => EdnV::Symbol("nil"@),
    }
}

/// A bound variable replaced by its value; anything else unchanged.
pub open spec fn subst_edn(c: EdnV, b: BindingV) -> EdnV {
    if edn_is_var(c) && b.contains_key(c->Symbol_0) {
        stored_edn(b[c->Symbol_0])
    } else {
        c
    }
}

/// A pattern with its bound variables replaced (and no valid-time override).
pub open spec fn subst_pattern(p: PatternV, b: BindingV) -> PatternV {
    PatternV {
        entity: subst_edn(p.entity, b),
        attribute: subst_edn(p.attribute, b),
        value: subst_edn(p.value, b),
        valid_from: None,
        valid_to: None,
    }
}

/// Convert a stored Value back to EdnValue.
pub fn value_to_edn(value: &Value) -> (r: EdnValue)
    ensures
        r@ == stored_edn(value@),
{
    match value {
        Value::String(s) => EdnValue::String(s.clone()),
        Value::Integer(i) => EdnValue::Integer(*i),
        Value::Float(f) => EdnValue::Float(f.clone()),
        Value::Boolean(b) => EdnValue::Boolean(*b),
        Value::Ref(u) => EdnValue::Uuid(*u),
        Value::Keyword(k) => EdnValue::Keyword(k.clone()),
        Value::Null => EdnValue::Symbol(to_owned_string("nil")),
    }
}

/// Substitute a single value: if it's a bound variable, replace it; otherwise clone.
pub fn substitute_value(value: &EdnValue, binding: &Bindings) -> (r: EdnValue)
    ensures
        r@ == subst_edn(value@, binding@),
{
    if let Some(var) = value.as_variable() {
        match binding.get(var) {
            Some(v) => value_to_edn(v),
            None => value.clone(),
        }
    } else {
        value.clone()
    }
}

/// Substitute bound variables in a Pattern, returning a new Pattern with concrete values.
pub fn substitute_pattern(pattern: &Pattern, binding: &Bindings) -> (r: Pattern)
    ensures
        r@ == subst_pattern(pattern@, binding@),
{
    Pattern::new(
        substitute_value(&pattern.entity, binding),
        substitute_value(&pattern.attribute, binding),
        substitute_value(&pattern.value, binding),
    )
}

/// Convert a predicate name + argument list to a Pattern.
///
/// 1-arg: `(blocked ?x)` → `[?x :blocked ?_rule_value]`
/// 2-arg: `(reachable ?from ?to)` → `[?from :reachable ?to]`
pub fn rule_invocation_to_pattern(predicate: &str, args: &[EdnValue]) -> (r: Result<Pattern, String>)
    ensures
        match invocation_pattern(predicate@, edn_seq_view(args@)) {
            Some(p) => r matches Ok(q) && q@ == p,
            None => r matches Err(m) && m@ == invocation_error(predicate@, args@.len()),
        },
{
    let ghost av = edn_seq_view(args@);
    assert(av.len() == args@.len());
    if args.len() == 1 {
        assert(av[0] == args@[0]@);
        Ok(Pattern::new(
            args[0].clone(),
            EdnValue::Keyword(concat2(":", predicate)),
            EdnValue::Symbol(to_owned_string("?_rule_value")),
        ))
    } else if args.len() == 2 {
        assert(av[0] == args@[0]@ && av[1] == args@[1]@);
        Ok(Pattern::new(args[0].clone(), EdnValue::Keyword(concat2(":", predicate)), args[1].clone()))
    } else {
        let n = usize_to_string(args.len());
        let mut m = concat3("Rule invocation '", predicate, "' must have 1 or 2 arguments, got ");
        m.append(n.as_str());
        Err(m)
    }
}

/// A head argument with its variable (which must be bound) replaced.
pub open spec fn head_arg(e: EdnV, b: BindingV) -> Result<EdnV, Seq<char>> {
    if edn_is_var(e) {
        if b.contains_key(e->Symbol_0) {
            Ok(stored_edn(b[e->Symbol_0]))
        } else {
            Err("Unbound variable in rule head: "@ + e->Symbol_0)
        }
    } else {
        Ok(e)
    }
}

/// The fact a rule head derives under a binding: entity from the first
/// argument, value from the second (or `true` for a one-argument head),
/// attribute `:predicate`.
pub open spec fn spec_head(head: Seq<EdnV>, b: BindingV) -> Result<Triple, Seq<char>> {
    if head.len() < 2 {
        Err("Rule head must have at least 2 elements: (predicate ?arg1)"@)
    } else if !(head[0] is Symbol) {
        Err("Rule head must start with predicate name (symbol)"@)
    } else {
        match head_arg(head[1], b) {
            Err(m) => Err(m),
            Ok(ee) => match spec_entity_id(ee) {
                None => Err("Failed to convert entity: "@ + ("Expected keyword or UUID for entity, got "@
                    + edn_debug_text(ee))),
                Some(id) => if head.len() >= 3 {
                    match head_arg(head[2], b) {
                        Err(m) => Err(m),
                        Ok(ve) => match spec_edn_to_value(ve) {
                            None => Err("Failed to convert value: "@ + edn_to_value_error(ve)),
                            Some(v) => Ok((id, pred_attr(head[0]->Symbol_0), v)),
                        },
                    }
                } else {
                    Ok((id, pred_attr(head[0]->Symbol_0), ValueV::Boolean(true)))
                },
            },
        }
    }
}

/// Substitute a head argument: a variable must be bound.
fn substitute_variable(edn: &EdnValue, binding: &Bindings) -> (r: Result<EdnValue, String>)
    ensures
        match head_arg(edn@, binding@) {
            Ok(e) => r matches Ok(x) && x@ == e,
            Err(m) => r matches Err(x) && x@ == m,
        },
{
    if let Some(var) = edn.as_variable() {
        match binding.get(var) {
            Some(v) => Ok(value_to_edn(v)),
            None => Err(concat2("Unbound variable in rule head: ", var)),
        }
    } else {
        Ok(edn.clone())
    }
}

/// Instantiate a rule head with variable bindings to create a derived fact
/// (transaction id 0).
pub fn instantiate_head(head: &[EdnValue], binding: &Bindings) -> (r: Result<Fact, String>)
    ensures
        match spec_head(edn_seq_view(head@), binding@) {
            Ok(t) => r matches Ok(f) && fact_triple(f) == t && f.tx_id == 0 && f.asserted,
            Err(m) => r matches Err(x) && x@ == m,
        },
{
    let ghost hv = edn_seq_view(head@);
    if head.len() < 2 {
        return Err(to_owned_string("Rule head must have at least 2 elements: (predicate ?arg1)"));
    }
    assert(hv[0] == head@[0]@ && hv[1] == head@[1]@);
    let predicate = match &head[0] {
        EdnValue::Symbol(s) => s,
        _ => return Err(to_owned_string("Rule head must start with predicate name (symbol)")),
    };
    let entity_edn = substitute_variable(&head[1], binding)?;
    let entity = match edn_to_entity_id(&entity_edn) {
        Ok(e) => e,
        Err(e) => return Err(concat2("Failed to convert entity: ", e.as_str())),
    };
    let value = if head.len() >= 3 {
        assert(hv[2] == head@[2]@);
        let value_edn = substitute_variable(&head[2], binding)?;
        match edn_to_value(&value_edn) {
            Ok(v) => v,
            Err(e) => return Err(concat2("Failed to convert value: ", e.as_str())),
        }
    } else {
        Value::Boolean(true)
    };
    let attribute = concat2(":", predicate.as_str());
    Ok(Fact::new(entity, attribute, value, 0))
}

/// The message for negation inside a rule evaluated without strata.
pub open spec fn not_in_rule_error() -> Seq<char> {
    "WhereClause::Not in evaluate_rule: use StratifiedEvaluator for rules with negation"@
}

/// The message for not-join inside a rule evaluated without strata.
pub open spec fn not_join_in_rule_error() -> Seq<char> {
    "WhereClause::NotJoin in evaluate_rule: use StratifiedEvaluator for rules with negation"@
}

/// The message for disjunction inside a rule body.
pub open spec fn or_in_rule_error() -> Seq<char> {
    "WhereClause::Or/OrJoin in evaluate_rule: not yet implemented"@
}

/// The patterns of the first `k` clauses of a rule body (rule invocations
/// as their patterns, expression clauses skipped), or the error of the
/// first clause that a rule without strata cannot hold.
pub open spec fn scan_body(body: Seq<ClauseV>, k: int) -> Result<Seq<PatternV>, Seq<char>>
    decreases k,
{
    if k <= 0 {
        Ok(seq![])
    } else {
        match scan_body(body, k - 1) {
            Err(m) => Err(m),
            Ok(ps) => match body[k - 1] {
                ClauseV::Pattern(p) => Ok(ps.push(p)),
                ClauseV::RuleInvocation { predicate, args } => match invocation_pattern(predicate, args) {
                    Some(p) => Ok(ps.push(p)),
                    None => Err(invocation_error(predicate, args.len())),
                },
                ClauseV::Not(_) => Err(not_in_rule_error()),
                ClauseV::NotJoin { .. } => Err(not_join_in_rule_error()),
                ClauseV::Expr { .. } => Ok(ps),
                _ => Err(or_in_rule_error()),
            },
        }
    }
}

/// Whether a clause list holds an expression clause.
pub open spec fn has_expr(body: Seq<ClauseV>) -> bool {
    exists|i: int| 0 <= i < body.len() && body[i] is Expr
}

/// The facts a head derives from each row, in order, or the first error.
pub open spec fn heads_of(head: Seq<EdnV>, rows: Seq<BindingV>) -> Result<Seq<Triple>, Seq<char>>
    decreases rows.len(),
{
    if rows.len() == 0 {
        Ok(seq![])
    } else {
        match heads_of(head, rows.drop_last()) {
            Err(m) => Err(m),
            Ok(ts) => match spec_head(head, rows.last()) {
                Err(m) => Err(m),
                Ok(t) => Ok(ts.push(t)),
            },
        }
    }
}

/// One application of a rule to the facts: the body's patterns joined, its
/// expression clauses applied, and the head instantiated for each row.
pub open spec fn derive_rule(rule: RuleV, facts: Seq<Triple>) -> Outcome<Seq<Triple>> {
    match scan_body(rule.body, rule.body.len() as int) {
        Err(m) => Outcome::Failed(m),
        Ok(ps) => if ps.len() == 0 && !has_expr(rule.body) {
            Outcome::Done(seq![])
        } else {
            match expr_clauses_rows(join_fold(ps, facts, seq![Map::empty()]), rule.body) {
                None => Outcome::Panic,
                Some(rows) => match heads_of(rule.head, rows) {
                    Ok(ts) => Outcome::Done(ts),
                    Err(m) => Outcome::Failed(m),
                },
            }
        },
    }
}

proof fn lemma_scan_err_stays(body: Seq<ClauseV>, k: int, n: int)
    requires
        0 <= k <= n,
        scan_body(body, k) is Err,
    ensures
        scan_body(body, n) == scan_body(body, k),
    decreases n - k,
{
    if k < n {
        lemma_scan_err_stays(body, k, n - 1);
    }
}

proof fn lemma_heads_err_stays(head: Seq<EdnV>, rows: Seq<BindingV>, k: int)
    requires
        0 <= k <= rows.len(),
        heads_of(head, rows.subrange(0, k)) is Err,
    ensures
        heads_of(head, rows) == heads_of(head, rows.subrange(0, k)),
    decreases rows.len() - k,
{
    if k < rows.len() {
        assert(rows.subrange(0, k + 1).drop_last() =~= rows.subrange(0, k));
        lemma_heads_err_stays(head, rows, k + 1);
    } else {
        assert(rows.subrange(0, k) =~= rows);
    }
}

/// Evaluate a single rule against the facts of a matcher.
///
/// `Err(None)` stands for an expression whose evaluation overflows.
fn evaluate_rule(rule: &Rule, matcher: &PatternMatcher) -> (r: Result<Vec<Fact>, Option<String>>)
    ensures
        match derive_rule(rule@, fact_triples(matcher.facts())) {
            Outcome::Done(ts) => r matches Ok(fs) && fact_triples(fs@) == ts,
            Outcome::Failed(m) => r matches Err(Some(x)) && x@ == m,
            Outcome::Panic => r matches Err(None),
        },
{
    let ghost bv = rule@.body;
    let ghost n = bv.len() as int;
    let mut patterns: Vec<Pattern> = Vec::new();
    let mut has_exprs = false;
    let mut i: usize = 0;
    assert(patterns_view(patterns@) =~= Seq::<PatternV>::empty());
    while i < rule.body.len()
        invariant
            i <= rule.body.len(),
            bv == rule@.body,
            n == bv.len(),
            bv.len() == rule.body@.len(),
            scan_body(bv, i as int) == Ok::<Seq<PatternV>, Seq<char>>(patterns_view(patterns@)),
            has_exprs == exists|j: int| 0 <= j < i && bv[j] is Expr,
        decreases rule.body.len() - i,
    {
        assert(bv[i as int] == rule.body@[i as int]@);
        let ghost before = patterns_view(patterns@);
        match &rule.body[i] {
            WhereClause::Pattern(p) => {
                patterns.push(p.clone());
                assert(patterns_view(patterns@) =~= before.push(p@));
            },
            WhereClause::RuleInvocation { predicate, args } => {
                match rule_invocation_to_pattern(predicate.as_str(), args.as_slice()) {
                    Ok(p) => {
                        patterns.push(p);
                        assert(patterns_view(patterns@) =~= before.push(p@));
                    },
                    Err(e) => {
                        proof { lemma_scan_err_stays(bv, i + 1, n); }
                        return Err(Some(e));
                    },
                }
            },
            WhereClause::Not(_) => {
                proof { lemma_scan_err_stays(bv, i + 1, n); }
                return Err(Some(to_owned_string(
                    "WhereClause::Not in evaluate_rule: use StratifiedEvaluator for rules with negation",
                )));
            },
            WhereClause::NotJoin { .. } => {
                proof { lemma_scan_err_stays(bv, i + 1, n); }
                return Err(Some(to_owned_string(
                    "WhereClause::NotJoin in evaluate_rule: use StratifiedEvaluator for rules with negation",
                )));
            },
            WhereClause::Expr { .. } => {
                has_exprs = true;
            },
            _ => {
                proof { lemma_scan_err_stays(bv, i + 1, n); }
                return Err(Some(to_owned_string("WhereClause::Or/OrJoin in evaluate_rule: not yet implemented")));
            },
        }
        i = i + 1;
    }
    if patterns.len() == 0 && !has_exprs {
        let out: Vec<Fact> = Vec::new();
        assert(fact_triples(out@) =~= Seq::<Triple>::empty());
        return Ok(out);
    }
    let rows = matcher.match_patterns(patterns.as_slice());
    let rows = match apply_expr_clauses_checked(rows, rule.body.as_slice()) {
        Some(v) => v,
        None => return Err(None),
    };
    let ghost rv = bindings_view(rows@);
    let ghost hv = rule@.head;
    let mut out: Vec<Fact> = Vec::new();
    let mut j: usize = 0;
    assert(fact_triples(out@) =~= Seq::<Triple>::empty());
    assert(rv.subrange(0, 0) =~= Seq::<BindingV>::empty());
    assert(derive_rule(rule@, fact_triples(matcher.facts())) == match heads_of(hv, rv) {
        Ok(ts) => Outcome::Done(ts),
        Err(m) => Outcome::Failed(m),
    });
    while j < rows.len()
        invariant
            derive_rule(rule@, fact_triples(matcher.facts())) == match heads_of(hv, rv) {
                Ok(ts) => Outcome::Done(ts),
                Err(m) => Outcome::Failed(m),
            },
            j <= rows.len(),
            rv == bindings_view(rows@),
            hv == rule@.head,
            hv == edn_seq_view(rule.head@),
            heads_of(hv, rv.subrange(0, j as int)) == Ok::<Seq<Triple>, Seq<char>>(fact_triples(out@)),
        decreases rows.len() - j,
    {
        assert(rv.subrange(0, j + 1).drop_last() =~= rv.subrange(0, j as int));
        assert(rv.subrange(0, j + 1).last() == rows@[j as int]@);
        match instantiate_head(rule.head.as_slice(), &rows[j]) {
            Ok(f) => {
                let ghost before = fact_triples(out@);
                out.push(f);
                assert(fact_triples(out@) =~= before.push(fact_triple(f)));
            },
            Err(e) => {
                proof { lemma_heads_err_stays(hv, rv, j + 1); }
                return Err(Some(e));
            },
        }
        j = j + 1;
    }
    assert(rv.subrange(0, rv.len() as int) =~= rv);
    Ok(out)
}

/// `ts` without the triple `t`.
pub open spec fn drop_triple(ts: Seq<Triple>, t: Triple) -> Seq<Triple>
    decreases ts.len(),
{
    if ts.len() == 0 {
        seq![]
    } else if ts.last() == t {
        drop_triple(ts.drop_last(), t)
    } else {
        drop_triple(ts.drop_last(), t).push(ts.last())
    }
}

/// Each triple once, at its last occurrence: what a store holds after the
/// triples are asserted one transaction each, in order.
pub open spec fn keep_last(ts: Seq<Triple>) -> Seq<Triple>
    decreases ts.len(),
{
    if ts.len() == 0 {
        seq![]
    } else {
        drop_triple(keep_last(ts.drop_last()), ts.last()).push(ts.last())
    }
}

/// The triples of `new` that are not in `known`, each once, in order of
/// first occurrence.
pub open spec fn fresh_delta(known: Seq<Triple>, new: Seq<Triple>) -> Seq<Triple>
    decreases new.len(),
{
    if new.len() == 0 {
        seq![]
    } else {
        let d = fresh_delta(known, new.drop_last());
        if known.contains(new.last()) || d.contains(new.last()) {
            d
        } else {
            d.push(new.last())
        }
    }
}

/// The rules applied in turn, their derived facts concatenated; the first
/// failure stops.
pub open spec fn derive_all(rules: Seq<RuleV>, facts: Seq<Triple>) -> Outcome<Seq<Triple>>
    decreases rules.len(),
{
    if rules.len() == 0 {
        Outcome::Done(seq![])
    } else {
        match derive_all(rules.drop_last(), facts) {
            Outcome::Done(ts) => match derive_rule(rules.last(), facts) {
                Outcome::Done(us) => Outcome::Done(ts + us),
                Outcome::Failed(m) => Outcome::Failed(m),
                Outcome::Panic => Outcome::Panic,
            },
            Outcome::Failed(m) => Outcome::Failed(m),
            Outcome::Panic => Outcome::Panic,
        }
    }
}

/// The rules of each predicate in turn.
pub open spec fn rules_of(groups: Seq<(Seq<char>, Seq<RuleV>)>, preds: Seq<Seq<char>>) -> Seq<RuleV>
    decreases preds.len(),
{
    if preds.len() == 0 {
        seq![]
    } else {
        rules_of(groups, preds.drop_last()) + rules_for(groups, preds.last())
    }
}

/// The message when the iteration limit is reached.
pub open spec fn max_iterations_error(max: nat) -> Seq<char> {
    "Max iterations ("@ + nat_text(max) + ") exceeded. Possible infinite recursion or cycle in rules."@
}

/// Semi-naive iteration from the facts `known` (the derived store's
/// transaction counter at `count`, `fuel` iterations left of `max`): the
/// rules are applied, the triples not seen yet form the delta; an empty delta
/// is the fixed point, else each delta triple is asserted in its own
/// transaction and the iteration goes on.
pub open spec fn fixpoint(rules: Seq<RuleV>, known: Seq<Triple>, count: int, fuel: nat, max: nat) -> Outcome<
    Seq<Triple>,
>
    decreases fuel,
{
    if fuel == 0 {
        Outcome::Failed(max_iterations_error(max))
    } else {
        match derive_all(rules, known) {
            Outcome::Done(new) => {
                let d = fresh_delta(known, new);
                if d.len() == 0 {
                    Outcome::Done(known)
                } else if count + d.len() > u64::MAX {
                    Outcome::Failed(counter_exhausted_error())
                } else {
                    fixpoint(rules, known + d, count + d.len(), (fuel - 1) as nat, max)
                }
            },
            Outcome::Failed(m) => Outcome::Failed(m),
            Outcome::Panic => Outcome::Panic,
        }
    }
}

/// The names of a list of predicates.
pub open spec fn names_of(s: Seq<String>) -> Seq<Seq<char>> {
    s.map_values(|x: String| x@)
}

/// Recursive evaluation of the predicates' rules over the asserted facts of
/// `records`: the triples of the derived store's asserted facts.
pub open spec fn recursive_outcome(
    records: Seq<Fact>,
    groups: Seq<(Seq<char>, Seq<RuleV>)>,
    preds: Seq<Seq<char>>,
    max: nat,
) -> Outcome<Seq<Triple>> {
    let base = fact_triples(net_asserted(records));
    fixpoint(rules_of(groups, preds), keep_last(base), base.len() as int, max, max)
}

proof fn lemma_derive_all_stays(rules: Seq<RuleV>, facts: Seq<Triple>, k: int)
    requires
        0 <= k <= rules.len(),
        !(derive_all(rules.subrange(0, k), facts) is Done),
    ensures
        derive_all(rules, facts) == derive_all(rules.subrange(0, k), facts),
    decreases rules.len() - k,
{
    if k < rules.len() {
        assert(rules.subrange(0, k + 1).drop_last() =~= rules.subrange(0, k));
        lemma_derive_all_stays(rules, facts, k + 1);
    } else {
        assert(rules.subrange(0, k) =~= rules);
    }
}

proof fn lemma_drop_triple_contains(ts: Seq<Triple>, t: Triple, u: Triple)
    ensures
        drop_triple(ts, t).contains(u) <==> (ts.contains(u) && u != t),
    decreases ts.len(),
{
    if ts.len() > 0 {
        lemma_drop_triple_contains(ts.drop_last(), t, u);
        if ts.contains(u) && u != t {
            let i = choose|i: int| 0 <= i < ts.len() && ts[i] == u;
            if i < ts.len() - 1 {
                assert(ts.drop_last()[i] == u);
            }
        }
        if drop_triple(ts.drop_last(), t).contains(u) || (ts.last() == u) {
            if ts.drop_last().contains(u) {
                let i = choose|i: int| 0 <= i < ts.drop_last().len() && ts.drop_last()[i] == u;
                assert(ts[i] == u);
            }
        }
        let d = drop_triple(ts.drop_last(), t);
        if ts.last() != t {
            assert(d.push(ts.last()).contains(u) <==> (d.contains(u) || ts.last() == u)) by {
                if d.push(ts.last()).contains(u) {
                    let i = choose|i: int| 0 <= i < d.push(ts.last()).len() && d.push(ts.last())[i] == u;
                    if i < d.len() {
                        assert(d[i] == u);
                    }
                }
                if d.contains(u) {
                    let i = choose|i: int| 0 <= i < d.len() && d[i] == u;
                    assert(d.push(ts.last())[i] == u);
                }
                assert(d.push(ts.last())[d.len() as int] == ts.last());
            }
        }
    }
}

proof fn lemma_drop_triple_absent(ts: Seq<Triple>, t: Triple)
    requires
        !ts.contains(t),
    ensures
        drop_triple(ts, t) == ts,
    decreases ts.len(),
{
    if ts.len() > 0 {
        assert(ts.last() == ts[ts.len() - 1]);
        assert(!ts.drop_last().contains(t)) by {
            if ts.drop_last().contains(t) {
                let i = choose|i: int| 0 <= i < ts.drop_last().len() && ts.drop_last()[i] == t;
                assert(ts[i] == t);
            }
        }
        lemma_drop_triple_absent(ts.drop_last(), t);
        assert(ts.drop_last().push(ts.last()) =~= ts);
    }
}

proof fn lemma_keep_last_contains(ts: Seq<Triple>, u: Triple)
    ensures
        keep_last(ts).contains(u) <==> ts.contains(u),
    decreases ts.len(),
{
    if ts.len() > 0 {
        let t = ts.last();
        lemma_keep_last_contains(ts.drop_last(), u);
        let k = keep_last(ts.drop_last());
        lemma_drop_triple_contains(k, t, u);
        let d = drop_triple(k, t);
        if d.push(t).contains(u) {
            let i = choose|i: int| 0 <= i < d.push(t).len() && d.push(t)[i] == u;
            if i < d.len() {
                assert(d[i] == u);
            }
        }
        if d.contains(u) {
            let i = choose|i: int| 0 <= i < d.len() && d[i] == u;
            assert(d.push(t)[i] == u);
        }
        assert(d.push(t)[d.len() as int] == t);
        if ts.contains(u) {
            let i = choose|i: int| 0 <= i < ts.len() && ts[i] == u;
            if i < ts.len() - 1 {
                assert(ts.drop_last()[i] == u);
            }
        }
        if ts.drop_last().contains(u) {
            let i = choose|i: int| 0 <= i < ts.drop_last().len() && ts.drop_last()[i] == u;
            assert(ts[i] == u);
        }
        assert(ts[ts.len() - 1] == t);
    }
}

proof fn lemma_without_triple_triples(fs: Seq<Fact>, r: Fact)
    ensures
        fact_triples(without_triple(fs, r)) == drop_triple(fact_triples(fs), fact_triple(r)),
    decreases fs.len(),
{
    if fs.len() > 0 {
        lemma_without_triple_triples(fs.drop_last(), r);
        assert(fact_triples(fs).drop_last() =~= fact_triples(fs.drop_last()));
        assert(fact_triples(fs).last() == fact_triple(fs.last()));
        let w = without_triple(fs.drop_last(), r);
        assert(fact_triples(w.push(fs.last())) =~= fact_triples(w).push(fact_triple(fs.last())));
    } else {
        assert(fact_triples(fs) =~= Seq::<Triple>::empty());
        assert(fact_triples(without_triple(fs, r)) =~= Seq::<Triple>::empty());
    }
}

/// Facts of `fresh_delta`: each is new, in `new`, and occurs once.
proof fn lemma_fresh_delta(known: Seq<Triple>, new: Seq<Triple>)
    ensures
        forall|u: Triple| fresh_delta(known, new).contains(u) <==> (new.contains(u) && !known.contains(u)),
        fresh_delta(known, new).no_duplicates(),
    decreases new.len(),
{
    if new.len() > 0 {
        lemma_fresh_delta(known, new.drop_last());
        let d = fresh_delta(known, new.drop_last());
        let x = new.last();
        assert forall|u: Triple| fresh_delta(known, new).contains(u) <==> (new.contains(u) && !known.contains(u)) by {
            if new.contains(u) {
                let i = choose|i: int| 0 <= i < new.len() && new[i] == u;
                if i < new.len() - 1 {
                    assert(new.drop_last()[i] == u);
                }
            }
            if new.drop_last().contains(u) {
                let i = choose|i: int| 0 <= i < new.drop_last().len() && new.drop_last()[i] == u;
                assert(new[i] == u);
            }
            assert(new[new.len() - 1] == x);
            if !(known.contains(x) || d.contains(x)) {
                if d.push(x).contains(u) {
                    let i = choose|i: int| 0 <= i < d.push(x).len() && d.push(x)[i] == u;
                    if i < d.len() {
                        assert(d[i] == u);
                    }
                }
                if d.contains(u) {
                    let i = choose|i: int| 0 <= i < d.len() && d[i] == u;
                    assert(d.push(x)[i] == u);
                }
                assert(d.push(x)[d.len() as int] == x);
            }
        }
        if !(known.contains(x) || d.contains(x)) {
            assert forall|i: int, j: int| 0 <= i < d.push(x).len() && 0 <= j < d.push(x).len() && i != j implies d.push(
                x,
            )[i] != d.push(x)[j] by {
                if i < d.len() && j < d.len() {
                } else if i == d.len() {
                    assert(d[j] == d.push(x)[j]);
                } else {
                    assert(d[i] == d.push(x)[i]);
                }
            }
        }
    }
}

/// The triples of a list of (entity, attribute, value) keys.
pub open spec fn key_triples(s: Seq<(EntityId, String, Value)>) -> Seq<Triple> {
    s.map_values(|k: (EntityId, String, Value)| (k.0, k.1@, k.2@))
}

proof fn lemma_concat_contains(a: Seq<Triple>, b: Seq<Triple>, u: Triple)
    ensures
        (a + b).contains(u) <==> (a.contains(u) || b.contains(u)),
{
    if (a + b).contains(u) {
        let i = choose|i: int| 0 <= i < (a + b).len() && (a + b)[i] == u;
        if i < a.len() {
            assert(a[i] == u);
        } else {
            assert(b[i - a.len()] == u);
        }
    }
    if a.contains(u) {
        let i = choose|i: int| 0 <= i < a.len() && a[i] == u;
        assert((a + b)[i] == u);
    }
    if b.contains(u) {
        let i = choose|i: int| 0 <= i < b.len() && b[i] == u;
        assert((a + b)[a.len() + i] == u);
    }
}

/// Whether the net-asserted records after those of the base's own view
/// (the new ones) have consecutive transaction counts following the number
/// of base records.
pub open spec fn new_counts(net: Seq<Fact>, base: Seq<Fact>) -> bool {
    let kb = keep_last(fact_triples(net_asserted(base))).len();
    forall|i: int| kb <= i < net.len() ==> (#[trigger] net[i]).tx_count == net_asserted(base).len() + (i - kb) + 1
}

/// Every record is an assertion with a transaction count of at most `c`.
pub open spec fn asserted_upto(fs: Seq<Fact>, c: u64) -> bool {
    forall|j: int| 0 <= j < fs.len() ==> (#[trigger] fs[j]).asserted && fs[j].tx_count <= c
}

/// Manual containment check of a fact key among the keys seen so far.
fn contains_fact(seen: &Vec<(EntityId, String, Value)>, key: &(EntityId, String, Value)) -> (r: bool)
    ensures
        r == key_triples(seen@).contains((key.0, key.1@, key.2@)),
{
    let ghost ks = key_triples(seen@);
    let ghost u = (key.0, key.1@, key.2@);
    let mut i: usize = 0;
    while i < seen.len()
        invariant
            i <= seen.len(),
            ks == key_triples(seen@),
            u == (key.0, key.1@, key.2@),
            forall|j: int| 0 <= j < i ==> ks[j] != u,
        decreases seen.len() - i,
    {
        let entry = &seen[i];
        assert(ks[i as int] == (seen@[i as int].0, seen@[i as int].1@, seen@[i as int].2@));
        if entry.0 == key.0 && str_is(entry.1.as_str(), key.1.as_str()) && value_eq(&entry.2, &key.2) {
            assert(ks[i as int] == u);
            return true;
        }
        i = i + 1;
    }
    assert(!ks.contains(u)) by {
        if ks.contains(u) {
            let j = choose|j: int| 0 <= j < ks.len() && ks[j] == u;
        }
    }
    false
}

/// Recursive evaluator for Datalog rules using semi-naive evaluation.
pub struct RecursiveEvaluator {
    /// Base fact storage
    storage: FactStorage,
    /// Rule registry
    rules: RuleRegistry,
    /// Maximum iterations before giving up (prevents infinite loops)
    max_iterations: usize,
}

impl RecursiveEvaluator {
    /// The records of the base storage.
    pub closed spec fn base(&self) -> Seq<Fact> {
        self.storage.records()
    }

    /// The registered rules, by predicate.
    pub closed spec fn rule_groups(&self) -> Seq<(Seq<char>, Seq<RuleV>)> {
        self.rules.groups()
    }

    /// The iteration limit.
    pub closed spec fn limit(&self) -> nat {
        self.max_iterations as nat
    }

    /// Create a new recursive evaluator.
    pub fn new(storage: FactStorage, rules: RuleRegistry, max_iterations: usize) -> (r: Self)
        ensures
            r.base() == storage.records(),
            r.rule_groups() == rules.groups(),
            r.limit() == max_iterations,
    {
        RecursiveEvaluator { storage, rules, max_iterations }
    }

    /// The iteration limit.
    pub fn max_iterations(&self) -> (r: usize)
        ensures
            r == self.limit(),
    {
        self.max_iterations
    }

    /// Public version of instantiate_head for use by StratifiedEvaluator.
    pub fn instantiate_head_public(&self, head: &[EdnValue], binding: &Bindings) -> (r: Result<Fact, String>)
        ensures
            match spec_head(edn_seq_view(head@), binding@) {
                Ok(t) => r matches Ok(f) && fact_triple(f) == t && f.tx_id == 0 && f.asserted,
                Err(m) => r matches Err(x) && x@ == m,
            },
    {
        instantiate_head(head, binding)
    }

    /// Evaluate all rules for given predicates once against the matcher's facts.
    fn evaluate_iteration(&self, predicates: &[String], matcher: &PatternMatcher) -> (r: Result<
        Vec<Fact>,
        Option<String>,
    >)
        ensures
            match derive_all(rules_of(self.rule_groups(), names_of(predicates@)), fact_triples(matcher.facts())) {
                Outcome::Done(ts) => r matches Ok(fs) && fact_triples(fs@) == ts,
                Outcome::Failed(m) => r matches Err(Some(x)) && x@ == m,
                Outcome::Panic => r matches Err(None),
            },
    {
        let ghost pv = names_of(predicates@);
        let mut all: Vec<Rule> = Vec::new();
        let mut i: usize = 0;
        assert(rules_view(all@) =~= rules_of(self.rule_groups(), pv.subrange(0, 0)));
        while i < predicates.len()
            invariant
                i <= predicates.len(),
                pv == names_of(predicates@),
                rules_view(all@) == rules_of(self.rule_groups(), pv.subrange(0, i as int)),
            decreases predicates.len() - i,
        {
            let mut rs = self.rules.get_rules(predicates[i].as_str());
            let ghost before = rules_view(all@);
            let ghost more = rules_view(rs@);
            all.append(&mut rs);
            assert(rules_view(all@) =~= before + more);
            assert(pv.subrange(0, i + 1).drop_last() =~= pv.subrange(0, i as int));
            assert(pv.subrange(0, i + 1).last() == predicates@[i as int]@);
            i = i + 1;
        }
        assert(pv.subrange(0, predicates.len() as int) =~= pv);
        let ghost facts = fact_triples(matcher.facts());
        let ghost rv = rules_view(all@);
        let mut out: Vec<Fact> = Vec::new();
        let mut k: usize = 0;
        assert(fact_triples(out@) =~= Seq::<Triple>::empty());
        assert(rv.subrange(0, 0) =~= Seq::<RuleV>::empty());
        while k < all.len()
            invariant
                k <= all.len(),
                rv == rules_view(all@),
                rv == rules_of(self.rule_groups(), names_of(predicates@)),
                facts == fact_triples(matcher.facts()),
                derive_all(rv.subrange(0, k as int), facts) == Outcome::Done(fact_triples(out@)),
            decreases all.len() - k,
        {
            assert(rv.subrange(0, k + 1).drop_last() =~= rv.subrange(0, k as int));
            assert(rv.subrange(0, k + 1).last() == all@[k as int]@);
            match evaluate_rule(&all[k], matcher) {
                Ok(fs) => {
                    let mut fs = fs;
                    let ghost before = fact_triples(out@);
                    let ghost more = fact_triples(fs@);
                    out.append(&mut fs);
                    assert(fact_triples(out@) =~= before + more);
                },
                Err(e) => {
                    proof { lemma_derive_all_stays(rv, facts, k + 1); }
                    return Err(e);
                },
            }
            k = k + 1;
        }
        assert(rv.subrange(0, all.len() as int) =~= rv);
        Ok(out)
    }

    /// Asserts one fact in a transaction of its own.
    fn assert_one(derived: &mut FactStorage, f: &Fact) -> (r: Result<(), String>)
        requires
            asserted_upto(old(derived).records(), old(derived).counter()),
        ensures
            old(derived).counter() == u64::MAX ==> (r matches Err(m) && m@ == counter_exhausted_error()),
            old(derived).counter() < u64::MAX ==> r is Ok,
            r is Ok ==> {
                &&& final(derived).counter() == old(derived).counter() + 1
                &&& fact_triples(net_asserted(final(derived).records())) == drop_triple(
                    fact_triples(net_asserted(old(derived).records())),
                    fact_triple(*f),
                ).push(fact_triple(*f))
                &&& asserted_upto(final(derived).records(), final(derived).counter())
                &&& final(derived).records() == old(derived).records().push(final(derived).records().last())
                &&& final(derived).records().last().tx_count == final(derived).counter()
                &&& final(derived).records().last().asserted
                &&& fact_triple(final(derived).records().last()) == fact_triple(*f)
            },
    {
        let ghost old_records = derived.records();
        let mut one: Vec<(EntityId, String, Value)> = Vec::new();
        one.push((f.entity, f.attribute.clone(), f.value.clone()));
        let ghost onev = one@;
        match derived.transact(one, None) {
            Ok(tx) => {
                proof {
                    let rec = assertion_record(onev[0].0, onev[0].1, onev[0].2, None, tx, derived.counter());
                    assert(derived.records() =~= old_records.push(rec));
                    assert forall|j: int| 0 <= j < old_records.len() implies #[trigger] old_records[j].tx_count < rec.tx_count by {
                        assert(old_records[j].tx_count <= old(derived).counter());
                    }
                    lemma_net_asserted_push(old_records, rec);
                    lemma_without_triple_triples(net_asserted(old_records), rec);
                    let na = net_asserted(old_records);
                    assert(fact_triples(without_triple(na, rec).push(rec)) =~= fact_triples(without_triple(na, rec)).push(
                        fact_triple(rec),
                    ));
                    assert(fact_triple(rec) == fact_triple(*f));
                    assert forall|j: int| 0 <= j < derived.records().len() implies (#[trigger] derived.records()[j]).asserted
                        && derived.records()[j].tx_count <= derived.counter() by {
                        if j < old_records.len() {
                            assert(derived.records()[j] == old_records[j]);
                        }
                    }
                }
                Ok(())
            },
            Err(e) => Err(e),
        }
    }

    fn run(&self, predicates: &[String]) -> (r: Result<FactStorage, Option<String>>)
        ensures
            match recursive_outcome(self.base(), self.rule_groups(), names_of(predicates@), self.limit()) {
                Outcome::Done(ts) => r matches Ok(d) && fact_triples(net_asserted(d.records())) == ts,
                Outcome::Failed(m) => r matches Err(Some(x)) && x@ == m,
                Outcome::Panic => r matches Err(None),
            },
            r matches Ok(d) ==> new_counts(net_asserted(d.records()), self.base()),
    {
        // Start with base facts as initial delta
        let base_facts = self.storage.get_asserted_facts();
        let ghost base = fact_triples(base_facts@);
        let mut derived = FactStorage::new();
        let mut seen: Vec<(EntityId, String, Value)> = Vec::new();
        let mut k: usize = 0;
        assert(key_triples(seen@) =~= base.subrange(0, 0));
        assert(fact_triples(net_asserted(derived.records())) =~= keep_last(base.subrange(0, 0)));
        while k < base_facts.len()
            invariant
                k <= base_facts.len(),
                base == fact_triples(base_facts@),
                derived.counter() == k,
                asserted_upto(derived.records(), derived.counter()),
                base_facts@ == net_asserted(self.base()),
                fact_triples(net_asserted(derived.records())) == keep_last(base.subrange(0, k as int)),
                key_triples(seen@) == base.subrange(0, k as int),
            decreases base_facts.len() - k,
        {
            let f = &base_facts[k];
            match Self::assert_one(&mut derived, f) {
                Ok(()) => {},
                Err(e) => {
                    assert(false);
                    return Err(Some(e));
                },
            }
            let ghost before = key_triples(seen@);
            seen.push((f.entity, f.attribute.clone(), f.value.clone()));
            proof {
                assert(base.subrange(0, k + 1).drop_last() =~= base.subrange(0, k as int));
                assert(base.subrange(0, k + 1).last() == fact_triple(*f));
                assert(key_triples(seen@) =~= before.push(fact_triple(*f)));
            }
            k = k + 1;
        }
        let ghost rules = rules_of(self.rule_groups(), names_of(predicates@));
        let ghost target = recursive_outcome(self.base(), self.rule_groups(), names_of(predicates@), self.limit());
        let ghost mut known = keep_last(base);
        proof {
            assert(base.subrange(0, base.len() as int) =~= base);
            assert forall|u: Triple| key_triples(seen@).contains(u) <==> known.contains(u) by {
                lemma_keep_last_contains(base, u);
            }
        }
        let mut fuel: usize = self.max_iterations;
        loop
            invariant
                rules == rules_of(self.rule_groups(), names_of(predicates@)),
                fixpoint(rules, known, derived.counter() as int, fuel as nat, self.limit()) == target,
                target == recursive_outcome(self.base(), self.rule_groups(), names_of(predicates@), self.limit()),
                fact_triples(net_asserted(derived.records())) == known,
                asserted_upto(derived.records(), derived.counter()),
                forall|u: Triple| key_triples(seen@).contains(u) <==> known.contains(u),
                base == fact_triples(net_asserted(self.base())),
                derived.counter() as int == net_asserted(self.base()).len() + known.len() - keep_last(base).len(),
                new_counts(net_asserted(derived.records()), self.base()),
            decreases fuel,
        {
            if fuel == 0 {
                let n = usize_to_string(self.max_iterations);
                let mut m = concat2("Max iterations (", n.as_str());
                m.append(") exceeded. Possible infinite recursion or cycle in rules.");
                return Err(Some(m));
            }
            fuel = fuel - 1;
            // Evaluate rules once, get new facts
            let facts = derived.get_asserted_facts();
            let matcher = PatternMatcher::from_slice(facts);
            let new_facts = match self.evaluate_iteration(predicates, &matcher) {
                Ok(v) => v,
                Err(e) => return Err(e),
            };
            // Compute delta: facts not yet seen
            let ghost newt = fact_triples(new_facts@);
            let ghost seen0 = key_triples(seen@);
            let mut delta: Vec<Fact> = Vec::new();
            let mut j: usize = 0;
            assert(fact_triples(delta@) =~= fresh_delta(known, newt.subrange(0, 0)));
            assert(key_triples(seen@) =~= seen0 + fact_triples(delta@));
            while j < new_facts.len()
                invariant
                    j <= new_facts.len(),
                    newt == fact_triples(new_facts@),
                    fact_triples(delta@) == fresh_delta(known, newt.subrange(0, j as int)),
                    key_triples(seen@) == seen0 + fact_triples(delta@),
                    forall|u: Triple| seen0.contains(u) <==> known.contains(u),
                decreases new_facts.len() - j,
            {
                let f = &new_facts[j];
                let key = (f.entity, f.attribute.clone(), f.value.clone());
                let ghost u = fact_triple(*f);
                proof {
                    assert(newt.subrange(0, j + 1).drop_last() =~= newt.subrange(0, j as int));
                    assert(newt.subrange(0, j + 1).last() == u);
                    lemma_concat_contains(seen0, fact_triples(delta@), u);
                }
                if !contains_fact(&seen, &key) {
                    let ghost sb = key_triples(seen@);
                    let ghost db = fact_triples(delta@);
                    seen.push(key);
                    delta.push(f.clone());
                    assert(key_triples(seen@) =~= sb.push(u));
                    assert(fact_triples(delta@) =~= db.push(u));
                    assert(key_triples(seen@) =~= seen0 + fact_triples(delta@));
                }
                j = j + 1;
            }
            assert(newt.subrange(0, new_facts.len() as int) =~= newt);
            let ghost d = fact_triples(delta@);
            proof {
                lemma_fresh_delta(known, newt);
                assert forall|u: Triple| key_triples(seen@).contains(u) <==> (known + d).contains(u) by {
                    lemma_concat_contains(seen0, d, u);
                    lemma_concat_contains(known, d, u);
                }
            }
            // If no new facts, we've reached fixed point
            if delta.len() == 0 {
                return Ok(derived);
            }
            // Add delta facts to derived storage
            let ghost c0 = derived.counter() as int;
            proof {
                if c0 + d.len() <= u64::MAX {
                    assert(target == fixpoint(rules, known + d, c0 + d.len(), fuel as nat, self.limit()));
                }
            }
            let mut q: usize = 0;
            assert(known + d.subrange(0, 0) =~= known);
            while q < delta.len()
                invariant
                    q <= delta.len(),
                    d == fact_triples(delta@),
                    d == fresh_delta(known, newt),
                    d.no_duplicates(),
                    d.len() == delta.len(),
                    target == recursive_outcome(self.base(), self.rule_groups(), names_of(predicates@), self.limit()),
                    forall|u: Triple| d.contains(u) ==> !known.contains(u),
                    derived.counter() == c0 + q,
                    c0 + d.len() > u64::MAX ==> target == Outcome::<Seq<Triple>>::Failed(counter_exhausted_error()),
                    fact_triples(net_asserted(derived.records())) == known + d.subrange(0, q as int),
                    asserted_upto(derived.records(), derived.counter()),
                    base == fact_triples(net_asserted(self.base())),
                    derived.counter() as int == net_asserted(self.base()).len() + known.len() + q - keep_last(base).len(),
                    new_counts(net_asserted(derived.records()), self.base()),
                decreases delta.len() - q,
            {
                let ghost t = d[q as int];
                proof {
                    assert(fact_triple(delta@[q as int]) == t);
                    assert(d.contains(t));
                    assert(!(known + d.subrange(0, q as int)).contains(t)) by {
                        lemma_concat_contains(known, d.subrange(0, q as int), t);
                        if d.subrange(0, q as int).contains(t) {
                            let i = choose|i: int| 0 <= i < q && d.subrange(0, q as int)[i] == t;
                            assert(d[i] == d[q as int]);
                        }
                    }
                    lemma_drop_triple_absent(known + d.subrange(0, q as int), t);
                }
                let ghost before = derived.records();
                match Self::assert_one(&mut derived, &delta[q]) {
                    Ok(()) => {},
                    Err(e) => {
                        return Err(Some(e));
                    },
                }
                proof {
                    let rec = derived.records().last();
                    assert forall|j: int| 0 <= j < before.len() implies !same_triple(#[trigger] before[j], rec) by {
                        if same_triple(before[j], rec) {
                            lemma_asserted_visible(before, j);
                            let w = choose|w: int| 0 <= w < net_asserted(before).len() && same_triple(
                                #[trigger] net_asserted(before)[w],
                                before[j],
                            );
                            assert(fact_triples(net_asserted(before))[w] == t);
                        }
                    }
                    lemma_net_asserted_push_new(before, rec);
                }
                assert(known + d.subrange(0, q + 1) =~= (known + d.subrange(0, q as int)).push(t));
                q = q + 1;
            }
            proof {
                assert(d.subrange(0, d.len() as int) =~= d);
                known = known + d;
            }
        }
    }

    /// Evaluate rules for given predicates using semi-naive fixed-point
    /// iteration: a storage with the base facts and all derived facts.
    pub fn evaluate_recursive_rules(&self, predicates: &[String]) -> (r: Result<FactStorage, String>)
        requires
            !(recursive_outcome(self.base(), self.rule_groups(), names_of(predicates@), self.limit()) is Panic),
        ensures
            match recursive_outcome(self.base(), self.rule_groups(), names_of(predicates@), self.limit()) {
                Outcome::Done(ts) => r matches Ok(d) && fact_triples(net_asserted(d.records())) == ts,
                Outcome::Failed(m) => r matches Err(x) && x@ == m,
                Outcome::Panic => false,
            },
    {
        match self.run(predicates) {
            Ok(d) => Ok(d),
            Err(Some(m)) => Err(m),
            Err(None) => Err(String::new()),
        }
    }

    /// As [`Self::evaluate_recursive_rules`], with `None` where an expression's
    /// evaluation overflows.
    pub fn evaluate_recursive_rules_checked(&self, predicates: &[String]) -> (r: Option<Result<FactStorage, String>>)
        ensures
            match recursive_outcome(self.base(), self.rule_groups(), names_of(predicates@), self.limit()) {
                Outcome::Done(ts) => r matches Some(Ok(d)) && fact_triples(net_asserted(d.records())) == ts,
                Outcome::Failed(m) => r matches Some(Err(x)) && x@ == m,
                Outcome::Panic => r is None,
            },
            r matches Some(Ok(d)) ==> new_counts(net_asserted(d.records()), self.base()),
    {
        match self.run(predicates) {
            Ok(d) => Some(Ok(d)),
            Err(Some(m)) => Some(Err(m)),
            Err(None) => None,
        }
    }
}

/// The set of names in a list.
pub open spec fn var_set(vs: Seq<Seq<char>>) -> Set<Seq<char>> {
    Set::new(|k: Seq<char>| vs.contains(k))
}

proof fn lemma_name_set(keep: Seq<String>)
    ensures
        name_set(keep) == var_set(names_of(keep)),
{
    assert forall|k: Seq<char>| name_set(keep).contains(k) <==> var_set(names_of(keep)).contains(k) by {
        if name_set(keep).contains(k) {
            let i = choose|i: int| 0 <= i < keep.len() && keep[i]@ == k;
            assert(names_of(keep)[i] == k);
        }
        if var_set(names_of(keep)).contains(k) {
            let i = choose|i: int| 0 <= i < names_of(keep).len() && names_of(keep)[i] == k;
            assert(keep[i]@ == k);
        }
    }
    assert(name_set(keep) =~= var_set(names_of(keep)));
}

/// The patterns of a negated body's pattern and rule-invocation clauses, in
/// order, with the bound variables of `b` replaced (invocations of the wrong
/// arity are left out).
pub open spec fn negated_patterns(clauses: Seq<ClauseV>, b: BindingV) -> Seq<PatternV>
    decreases clauses.len(),
{
    if clauses.len() == 0 {
        seq![]
    } else {
        let prev = negated_patterns(clauses.drop_last(), b);
        match clauses.last() {
            ClauseV::Pattern(p) => prev.push(subst_pattern(p, b)),
            ClauseV::RuleInvocation { predicate, args } => match invocation_pattern(predicate, args) {
                Some(p) => prev.push(subst_pattern(p, b)),
                None => prev,
            },
            _ => prev,
        }
    }
}

/// Each row with the variables of `outer` it does not bind added.
pub open spec fn with_outer(rows: Seq<BindingV>, outer: BindingV) -> Seq<BindingV> {
    rows.map_values(|nb: BindingV| outer.union_prefer_right(nb))
}

/// The rows that satisfy a negated body under the binding `outer`: its
/// patterns matched (with `outer`'s missing variables added to each row),
/// or `outer` itself when it has none, then its expression clauses applied;
/// `None` when an expression overflows.
pub open spec fn negated_rows(clauses: Seq<ClauseV>, outer: BindingV, facts: Seq<Triple>) -> Option<
    Seq<BindingV>,
> {
    rows_for(negated_patterns(clauses, outer), outer, facts, clauses)
}

/// Whether a not-join body is satisfiable under a binding, with only the
/// join variables passed in (`None` when an expression overflows).
pub open spec fn not_join_holds(join_vars: Seq<Seq<char>>, clauses: Seq<ClauseV>, b: BindingV, facts: Seq<Triple>) -> Option<
    bool,
> {
    match negated_rows(clauses, b.restrict(var_set(join_vars)), facts) {
        Some(rows) => Some(rows.len() > 0),
        None => None,
    }
}

/// The patterns of a negated body under a binding (see [`negated_patterns`]).
fn negated_patterns_exec(clauses: &Vec<WhereClause>, b: &Bindings) -> (r: Vec<Pattern>)
    ensures
        patterns_view(r@) == negated_patterns(clause_seq_view(clauses@), b@),
{
    let ghost cv = clause_seq_view(clauses@);
    let mut out: Vec<Pattern> = Vec::new();
    let mut i: usize = 0;
    assert(patterns_view(out@) =~= negated_patterns(cv.subrange(0, 0), b@));
    while i < clauses.len()
        invariant
            i <= clauses.len(),
            cv == clause_seq_view(clauses@),
            patterns_view(out@) == negated_patterns(cv.subrange(0, i as int), b@),
        decreases clauses.len() - i,
    {
        assert(cv.subrange(0, i + 1).drop_last() =~= cv.subrange(0, i as int));
        assert(cv.subrange(0, i + 1).last() == clauses@[i as int]@);
        let ghost before = patterns_view(out@);
        match &clauses[i] {
            WhereClause::Pattern(p) => {
                let q = substitute_pattern(p, b);
                out.push(q);
                assert(patterns_view(out@) =~= before.push(q@));
            },
            WhereClause::RuleInvocation { predicate, args } => {
                if let Ok(p) = rule_invocation_to_pattern(predicate.as_str(), args.as_slice()) {
                    let q = substitute_pattern(&p, b);
                    out.push(q);
                    assert(patterns_view(out@) =~= before.push(q@));
                }
            },
            _ => {},
        }
        i = i + 1;
    }
    assert(cv.subrange(0, clauses.len() as int) =~= cv);
    out
}

/// Whether a negated body has a satisfying row under `outer` (`None` when an
/// expression overflows).
fn negated_body_holds(clauses: &Vec<WhereClause>, outer: &Bindings, facts: &Vec<Fact>) -> (r: Option<bool>)
    ensures
        match negated_rows(clause_seq_view(clauses@), outer@, fact_triples(facts@)) {
            Some(rows) => r == Some(rows.len() > 0),
            None => r is None,
        },
{
    let patterns = negated_patterns_exec(clauses, outer);
    body_rows_exist(patterns, clauses, outer, facts)
}

/// The rows of a negated body with the given patterns under `outer`: the
/// patterns matched (with `outer`'s missing variables added to each row), or
/// `outer` itself when there are none, then the body's expression clauses.
pub open spec fn rows_for(ps: Seq<PatternV>, outer: BindingV, facts: Seq<Triple>, clauses: Seq<ClauseV>) -> Option<
    Seq<BindingV>,
> {
    let seed = if ps.len() == 0 {
        seq![outer]
    } else {
        with_outer(join_fold(ps, facts, seq![Map::empty()]), outer)
    };
    expr_clauses_rows(seed, clauses)
}

/// Whether [`rows_for`] has a row (`None` when an expression overflows).
pub fn body_rows_exist(patterns: Vec<Pattern>, clauses: &Vec<WhereClause>, outer: &Bindings, facts: &Vec<Fact>) -> (r:
    Option<bool>)
    ensures
        match rows_for(patterns_view(patterns@), outer@, fact_triples(facts@), clause_seq_view(clauses@)) {
            Some(rows) => r == Some(rows.len() > 0),
            None => r is None,
        },
{
    let seed: Vec<Bindings> = if patterns.len() == 0 {
        let mut v: Vec<Bindings> = Vec::new();
        v.push(outer.clone());
        assert(bindings_view(v@) =~= seq![outer@]);
        v
    } else {
        let matcher = PatternMatcher::from_slice(clone_facts(facts));
        let rows = matcher.match_patterns(patterns.as_slice());
        let ghost rv = bindings_view(rows@);
        let mut v: Vec<Bindings> = Vec::new();
        let mut k: usize = 0;
        while k < rows.len()
            invariant
                k <= rows.len(),
                rv == bindings_view(rows@),
                bindings_view(v@) == with_outer(rv.subrange(0, k as int), outer@),
            decreases rows.len() - k,
        {
            let mut nb = rows[k].clone();
            nb.merge_missing(outer);
            let ghost before = bindings_view(v@);
            v.push(nb);
            assert(bindings_view(v@) =~= before.push(outer@.union_prefer_right(rv[k as int])));
            assert(with_outer(rv.subrange(0, k + 1), outer@) =~= with_outer(rv.subrange(0, k as int), outer@).push(
                outer@.union_prefer_right(rv[k as int]),
            ));
            k = k + 1;
        }
        assert(rv.subrange(0, rows.len() as int) =~= rv);
        v
    };
    match apply_expr_clauses_checked(seed, clauses.as_slice()) {
        Some(rows) => Some(rows.len() > 0),
        None => None,
    }
}

/// Test whether a `not-join` body is satisfiable given a current binding;
/// `None` when an expression of the body overflows.
pub fn evaluate_not_join_checked(
    join_vars: &Vec<String>,
    clauses: &Vec<WhereClause>,
    binding: &Bindings,
    facts: &Vec<Fact>,
) -> (r: Option<bool>)
    ensures
        r == not_join_holds(names_of(join_vars@), clause_seq_view(clauses@), binding@, fact_triples(facts@)),
{
    let partial = binding.retain_keys(join_vars);
    proof { lemma_name_set(join_vars@); }
    negated_body_holds(clauses, &partial, facts)
}

/// Test whether a `not-join` body is satisfiable given a current binding.
///
/// Returns `true` if the body IS satisfiable → outer binding should be **rejected**.
/// Only the join variables of the binding are passed into the body.
pub fn evaluate_not_join(join_vars: &Vec<String>, clauses: &Vec<WhereClause>, binding: &Bindings, facts: &Vec<Fact>) -> (r:
    bool)
    requires
        not_join_holds(names_of(join_vars@), clause_seq_view(clauses@), binding@, fact_triples(facts@)) is Some,
    ensures
        Some(r) == not_join_holds(names_of(join_vars@), clause_seq_view(clauses@), binding@, fact_triples(facts@)),
{
    match evaluate_not_join_checked(join_vars, clauses, binding, facts) {
        Some(b) => b,
        None => false,
    }
}

/// The position of `name` among `names`, if any.
fn index_of(names: &Vec<String>, name: &str) -> (r: Option<usize>)
    ensures
        r matches Some(i) ==> i < names.len() && names@[i as int]@ == name@ && forall|j: int|
            0 <= j < i ==> names@[j]@ != name@,
        r is None ==> forall|i: int| 0 <= i < names.len() ==> names@[i]@ != name@,
{
    let mut i: usize = 0;
    while i < names.len()
        invariant
            i <= names.len(),
            forall|j: int| 0 <= j < i ==> names@[j]@ != name@,
        decreases names.len() - i,
    {
        if str_is(names[i].as_str(), name) {
            return Some(i);
        }
        i = i + 1;
    }
    None
}

/// Whether a clause model is a negation (`not` or `not-join`).
pub open spec fn is_negation(c: ClauseV) -> bool {
    c is Not || c is NotJoin
}

/// Whether clause `c` of rule `r` of group `f` invokes the predicate of
/// group `t` (inside it, at any depth), the clause being a negation or not
/// as `neg` says.
pub open spec fn dep_via(groups: Seq<(Seq<char>, Seq<RuleV>)>, f: int, r: int, c: int, t: int, neg: bool) -> bool {
    &&& 0 <= f < groups.len()
    &&& 0 <= t < groups.len()
    &&& 0 <= r < groups[f].1.len()
    &&& 0 <= c < groups[f].1[r].body.len()
    &&& is_negation(groups[f].1[r].body[c]) == neg
    &&& cv_preds(groups[f].1[r].body[c]).contains(groups[t].0)
}

/// Whether the rules of group `f` depend on the predicate of group `t`,
/// through a negation or not as `neg` says.
pub open spec fn depends_on(groups: Seq<(Seq<char>, Seq<RuleV>)>, f: int, t: int, neg: bool) -> bool {
    exists|r: int, c: int| #[trigger] dep_via(groups, f, r, c, t, neg)
}

/// Whether no rule depends on a predicate through a negation.
pub open spec fn negation_free(groups: Seq<(Seq<char>, Seq<RuleV>)>) -> bool {
    forall|f: int, t: int| !#[trigger] depends_on(groups, f, t, true)
}

/// Whether the rules can be stratified: an assignment of strata to the
/// predicates puts each at or above every predicate it depends on, and
/// strictly above every one it depends on through a negation.
pub open spec fn stratifiable(groups: Seq<(Seq<char>, Seq<RuleV>)>) -> bool {
    exists|st: Seq<int>| #[trigger] strata_valid(groups, st)
}

/// Whether `st` assigns the groups strata that every dependency respects.
pub open spec fn strata_valid(groups: Seq<(Seq<char>, Seq<RuleV>)>, st: Seq<int>) -> bool {
    &&& st.len() == groups.len()
    &&& forall|f: int, t: int, neg: bool| #[trigger]
        depends_on(groups, f, t, neg) ==> st[f] >= st[t] + (if neg {
            1int
        } else {
            0int
        })
}

/// Whether `lo` is at or below `st` at every predicate.
pub open spec fn strata_below(lo: Seq<usize>, st: Seq<int>) -> bool {
    forall|j: int| 0 <= j < lo.len() ==> lo[j] <= #[trigger] st[j]
}

/// Whether `st` assigns no predicate a negative stratum.
pub open spec fn strata_nonneg(st: Seq<int>) -> bool {
    forall|j: int| 0 <= j < st.len() ==> 0 <= #[trigger] st[j]
}

/// Whether the edge `(f, t, neg)` is among `edges`.
pub open spec fn has_edge(edges: Seq<(usize, usize, bool)>, f: int, t: int, neg: bool) -> bool {
    exists|k: int| 0 <= k < edges.len() && edges[k] == (f as usize, t as usize, neg)
}

proof fn lemma_has_edge_push(edges: Seq<(usize, usize, bool)>, x: (usize, usize, bool))
    ensures
        forall|f: int, t: int, neg: bool| #![trigger has_edge(edges, f, t, neg)] #![trigger has_edge(edges.push(x), f, t, neg)]
            has_edge(edges, f, t, neg) ==> has_edge(edges.push(x), f, t, neg),
        has_edge(edges.push(x), x.0 as int, x.1 as int, x.2),
{
    assert forall|f: int, t: int, neg: bool| has_edge(edges, f, t, neg) implies has_edge(edges.push(x), f, t, neg) by {
        let k = choose|k: int| 0 <= k < edges.len() && edges[k] == (f as usize, t as usize, neg);
        assert(edges.push(x)[k] == edges[k]);
    }
    assert(edges.push(x)[edges.len() as int] == x);
}

/// The names of the groups.
pub open spec fn group_names(groups: Seq<(Seq<char>, Seq<RuleV>)>) -> Seq<Seq<char>> {
    groups.map_values(|g: (Seq<char>, Seq<RuleV>)| g.0)
}

/// The dependency edges of the rules: `(p, q, negative)` when a rule of `p`
/// invokes `q`, negatively inside a `not` or `not-join`.
fn dependency_edges(registry: &RuleRegistry, names: &Vec<String>) -> (r: Vec<(usize, usize, bool)>)
    requires
        names@.map_values(|s: String| s@) == group_names(registry.groups()),
        distinct_predicates(registry.groups()),
    ensures
        forall|k: int| 0 <= k < r.len() ==> (#[trigger] r@[k]).0 < names.len() && r@[k].1 < names.len(),
        forall|f: int, t: int, neg: bool| #[trigger] depends_on(registry.groups(), f, t, neg) ==> has_edge(r@, f, t, neg),
        forall|k: int| 0 <= k < r.len() ==> depends_on(registry.groups(), (#[trigger] r@[k]).0 as int, r@[k].1 as int, r@[k].2),
{
    let ghost g = registry.groups();
    assert(names@.map_values(|s: String| s@).len() == g.len());
    let mut edges: Vec<(usize, usize, bool)> = Vec::new();
    let mut p: usize = 0;
    while p < names.len()
        invariant
            g == registry.groups(),
            names@.map_values(|s: String| s@) == group_names(g),
            distinct_predicates(g),
            names@.len() == g.len(),
            p <= names.len(),
            forall|k: int| 0 <= k < edges.len() ==> (#[trigger] edges@[k]).0 < names.len() && edges@[k].1 < names.len(),
            forall|k: int| 0 <= k < edges.len() ==> depends_on(g, (#[trigger] edges@[k]).0 as int, edges@[k].1 as int, edges@[k].2),
            forall|f: int, r: int, c: int, t: int, neg: bool| #[trigger] dep_via(g, f, r, c, t, neg) && f < p ==> has_edge(
                edges@,
                f,
                t,
                neg,
            ),
        decreases names.len() - p,
    {
        assert(names@.map_values(|s: String| s@)[p as int] == group_names(g)[p as int]);
        proof { lemma_rules_for_index(g, p as int); }
        let rules = registry.get_rules(names[p].as_str());
        let mut ri: usize = 0;
        while ri < rules.len()
            invariant
                g == registry.groups(),
                names@.map_values(|s: String| s@) == group_names(g),
                distinct_predicates(g),
                names@.len() == g.len(),
                p < names.len(),
                rules_view(rules@) == g[p as int].1,
                ri <= rules.len(),
                forall|k: int| 0 <= k < edges.len() ==> (#[trigger] edges@[k]).0 < names.len() && edges@[k].1
                    < names.len(),
                forall|k: int| 0 <= k < edges.len() ==> depends_on(g, (#[trigger] edges@[k]).0 as int, edges@[k].1 as int, edges@[k].2),
                forall|f: int, r: int, c: int, t: int, neg: bool| #[trigger] dep_via(g, f, r, c, t, neg) && (f < p || (f
                    == p && r < ri)) ==> has_edge(edges@, f, t, neg),
            decreases rules.len() - ri,
        {
            let body = &rules[ri].body;
            assert(g[p as int].1[ri as int] == rules@[ri as int]@);
            let mut ci: usize = 0;
            while ci < body.len()
                invariant
                    g == registry.groups(),
                    names@.map_values(|s: String| s@) == group_names(g),
                    distinct_predicates(g),
                    names@.len() == g.len(),
                    p < names.len(),
                    ri < rules@.len(),
                    rules_view(rules@) == g[p as int].1,
                    g[p as int].1[ri as int] == rules@[ri as int]@,
                    body == rules@[ri as int].body,
                    ci <= body.len(),
                    forall|k: int| 0 <= k < edges.len() ==> (#[trigger] edges@[k]).0 < names.len() && edges@[k].1
                        < names.len(),
                    forall|k: int| 0 <= k < edges.len() ==> depends_on(g, (#[trigger] edges@[k]).0 as int, edges@[k].1 as int, edges@[k].2),
                    forall|f: int, r: int, c: int, t: int, neg: bool| #[trigger] dep_via(g, f, r, c, t, neg) && (f < p
                        || (f == p && r < ri) || (f == p && r == ri && c < ci)) ==> has_edge(edges@, f, t, neg),
                decreases body.len() - ci,
            {
                let clause = &body[ci];
                let negative = match clause {
                    WhereClause::Not(_) => true,
                    WhereClause::NotJoin { .. } => true,
                    _ => false,
                };
                let ghost cv = g[p as int].1[ri as int].body[ci as int];
                assert(cv == clause@);
                assert(is_negation(cv) == negative);
                let deps = clause.rule_invocations();
                proof { lemma_clause_preds_view(*clause); }
                let mut di: usize = 0;
                while di < deps.len()
                    invariant
                        g == registry.groups(),
                        names@.map_values(|s: String| s@) == group_names(g),
                        distinct_predicates(g),
                        names@.len() == g.len(),
                        p < names.len(),
                        di <= deps.len(),
                        forall|k: int| 0 <= k < edges.len() ==> (#[trigger] edges@[k]).0 < names.len() && edges@[k].1
                            < names.len(),
                        forall|k: int| 0 <= k < edges.len() ==> depends_on(g, (#[trigger] edges@[k]).0 as int, edges@[k].1 as int, edges@[k].2),
                        ri < rules@.len(),
                        ci < body@.len(),
                        rules_view(rules@) == g[p as int].1,
                        g[p as int].1[ri as int] == rules@[ri as int]@,
                        body == rules@[ri as int].body,
                        cv == g[p as int].1[ri as int].body[ci as int],
                        is_negation(cv) == negative,
                        strs_view(deps@) == cv_preds(cv),
                        forall|f: int, r: int, c: int, t: int, neg: bool| #[trigger] dep_via(g, f, r, c, t, neg) && (f
                            < p || (f == p && r < ri) || (f == p && r == ri && c < ci)) ==> has_edge(edges@, f, t, neg),
                        forall|d: int, t: int| #![trigger deps@[d], g[t]] 0 <= d < di && 0 <= t < g.len() && deps@[d]@ == g[t].0
                            ==> has_edge(edges@, p as int, t, negative),
                    decreases deps.len() - di,
                {
                    let ghost before = edges@;
                    if let Some(t) = index_of(names, deps[di]) {
                        proof { lemma_has_edge_push(before, (p, t, negative)); }
                        edges.push((p, t, negative));
                        proof {
                            assert(names@.map_values(|s: String| s@)[t as int] == g[t as int].0);
                            assert(strs_view(deps@)[di as int] == deps@[di as int]@);
                            assert(cv_preds(cv).contains(g[t as int].0));
                            assert(dep_via(g, p as int, ri as int, ci as int, t as int, negative));
                            assert forall|k: int| 0 <= k < edges.len() implies depends_on(g, (#[trigger] edges@[k]).0 as int, edges@[k].1 as int, edges@[k].2) by {
                                if k < before.len() {
                                    assert(edges@[k] == before[k]);
                                }
                            }
                            assert forall|t2: int| 0 <= t2 < g.len() && deps@[di as int]@ == #[trigger] g[t2].0 implies has_edge(
                                edges@,
                                p as int,
                                t2,
                                negative,
                            ) by {
                                if t2 != t {
                                    if t2 < t {
                                        assert(g[t2].0 != g[t as int].0);
                                    } else {
                                        assert(g[t as int].0 != g[t2].0);
                                    }
                                }
                            }
                        }
                    } else {
                        proof {
                            assert forall|t2: int| 0 <= t2 < g.len() implies deps@[di as int]@ != #[trigger] g[t2].0 by {
                                assert(names@.map_values(|s: String| s@)[t2] == g[t2].0);
                            }
                        }
                    }
                    di = di + 1;
                }
                proof {
                    assert forall|f: int, r: int, c: int, t: int, neg: bool| #[trigger] dep_via(g, f, r, c, t, neg) && (f
                        < p || (f == p && r < ri) || (f == p && r == ri && c < ci + 1)) implies has_edge(edges@, f, t, neg) by {
                        if f == p && r == ri && c == ci {
                            assert(cv_preds(cv).contains(g[t].0));
                            let d = choose|d: int| 0 <= d < cv_preds(cv).len() && cv_preds(cv)[d] == g[t].0;
                            assert(deps@[d]@ == g[t].0);
                        }
                    }
                }
                ci = ci + 1;
            }
            ri = ri + 1;
        }
        p = p + 1;
    }
    proof {
        assert forall|f: int, t: int, neg: bool| #[trigger] depends_on(g, f, t, neg) implies has_edge(edges@, f, t, neg) by {
            let (r, c) = choose|r: int, c: int| #[trigger] dep_via(g, f, r, c, t, neg);
        }
    }
    edges
}

/// How many distinct values of `st` lie below `x`.
spec fn rank_of(st: Seq<int>, x: int) -> nat {
    st.to_set().filter(|y: int| y < x).len()
}

proof fn lemma_rank_mono(st: Seq<int>, x: int, y: int)
    requires
        x <= y,
    ensures
        rank_of(st, x) <= rank_of(st, y),
        st.contains(x) && x < y ==> rank_of(st, x) < rank_of(st, y),
{
    broadcast use vstd::set::group_set_axioms;
    let a = st.to_set().filter(|z: int| z < x);
    let b = st.to_set().filter(|z: int| z < y);
    vstd::seq_lib::seq_to_set_is_finite(st);
    assert(a.subset_of(b));
    vstd::set_lib::lemma_len_subset(b, st.to_set());
    vstd::set_lib::lemma_len_subset(a, b);
    if st.contains(x) && x < y {
        assert(st.to_set().contains(x));
        assert(!a.contains(x));
        assert(a.insert(x).subset_of(b));
        vstd::set_lib::lemma_len_subset(a.insert(x), b);
    }
}

proof fn lemma_rank_bound(st: Seq<int>, i: int)
    requires
        0 <= i < st.len(),
    ensures
        rank_of(st, st[i]) < st.len(),
{
    broadcast use vstd::set::group_set_axioms;
    let a = st.to_set().filter(|z: int| z < st[i]);
    vstd::seq_lib::seq_to_set_is_finite(st);
    st.lemma_cardinality_of_set();
    assert(st.to_set().contains(st[i]));
    assert(!a.contains(st[i]));
    assert(a.insert(st[i]).subset_of(st.to_set()));
    vstd::set_lib::lemma_len_subset(a.insert(st[i]), st.to_set());
    vstd::set_lib::lemma_len_subset(a, st.to_set());
}

/// Stratifiable rules have strata below the number of predicates.
proof fn lemma_small_strata(groups: Seq<(Seq<char>, Seq<RuleV>)>, st: Seq<int>) -> (rk: Seq<int>)
    requires
        strata_valid(groups, st),
    ensures
        strata_valid(groups, rk),
        forall|i: int| 0 <= i < rk.len() ==> 0 <= #[trigger] rk[i] < groups.len(),
{
    let rk = Seq::new(st.len(), |i: int| rank_of(st, st[i]) as int);
    assert forall|i: int| 0 <= i < rk.len() implies 0 <= #[trigger] rk[i] < groups.len() by {
        lemma_rank_bound(st, i);
    }
    assert forall|f: int, t: int, neg: bool| #[trigger] depends_on(groups, f, t, neg) implies rk[f] >= rk[t] + (if neg {
        1int
    } else {
        0int
    }) by {
        let (r, c) = choose|r: int, c: int| #[trigger] dep_via(groups, f, r, c, t, neg);
        lemma_rank_mono(st, st[t], st[f]);
        if neg {
            assert(st.contains(st[t]));
        }
    }
    rk
}

/// Whether `m` is the message of rules refused for negation through a cycle.
pub open spec fn stratify_message(m: Seq<char>) -> bool {
    exists|p: Seq<char>| m == "Cannot stratify rules: negation through a cycle involving '"@ + p + "'"@
}

/// The sum of some strata.
spec fn strata_sum(s: Seq<usize>) -> int
    decreases s.len(),
{
    if s.len() == 0 {
        0
    } else {
        strata_sum(s.drop_last()) + s.last()
    }
}

proof fn lemma_strata_sum_update(s: Seq<usize>, i: int, v: usize)
    requires
        0 <= i < s.len(),
    ensures
        strata_sum(s.update(i, v)) == strata_sum(s) - s[i] + v,
    decreases s.len(),
{
    let u = s.update(i, v);
    if i < s.len() - 1 {
        lemma_strata_sum_update(s.drop_last(), i, v);
        assert(u.drop_last() =~= s.drop_last().update(i, v));
    } else {
        assert(u.drop_last() =~= s.drop_last());
    }
}

proof fn lemma_strata_sum_bound(s: Seq<usize>, b: int)
    requires
        b >= 0,
        forall|j: int| 0 <= j < s.len() ==> s[j] <= b,
    ensures
        0 <= strata_sum(s) <= s.len() * b,
    decreases s.len(),
{
    if s.len() > 0 {
        lemma_strata_sum_bound(s.drop_last(), b);
        let k = s.len() - 1;
        assert(k * b + b == s.len() * b) by (nonlinear_arith)
            requires
                k == s.len() - 1,
        ;
    }
}

/// Assigns each predicate with rules (in registration order) a stratum that
/// every dependency respects: starting from 0, a predicate's stratum is
/// raised to what each dependency needs until nothing changes. Fails when
/// some stratum would reach the number of predicates, which happens exactly
/// when the rules cannot be stratified (negation goes round a cycle).
pub fn stratify(registry: &RuleRegistry) -> (r: Result<(Vec<String>, Vec<usize>), String>)
    ensures
        r is Ok <==> stratifiable(registry.groups()),
        r matches Ok((names, strata)) ==> strata.len() == names.len() && names@.map_values(|s: String| s@)
            == registry.groups().map_values(|g: (Seq<char>, Seq<RuleV>)| g.0) && forall|f: int, t: int, neg: bool|
            #[trigger] depends_on(registry.groups(), f, t, neg) ==> strata@[f] >= strata@[t] + (if neg {
                1int
            } else {
                0int
            }),
        r matches Err(m) ==> stratify_message(m@),
        negation_free(registry.groups()) ==> (r matches Ok((names, strata)) && forall|j: int|
            0 <= j < strata.len() ==> strata@[j] == 0),
        r matches Ok((names, strata)) ==> forall|st: Seq<int>|
            strata_valid(registry.groups(), st) && strata_nonneg(st) ==> #[trigger] strata_below(strata@, st),
        r matches Ok((names, strata)) ==> forall|j: int| 0 <= j < strata.len() ==> strata@[j] < names.len(),
        distinct_predicates(registry.groups()),
{
    let ghost g = registry.groups();
    let names = registry.predicate_names();
    let edges = dependency_edges(registry, &names);
    let n = names.len();
    let mut strata: Vec<usize> = Vec::new();
    let mut k: usize = 0;
    while k < n
        invariant
            k <= n,
            strata.len() == k,
            forall|j: int| 0 <= j < k ==> strata@[j] == 0,
        decreases n - k,
    {
        strata.push(0);
        k = k + 1;
    }
    assert(names@.map_values(|s: String| s@).len() == g.map_values(|x: (Seq<char>, Seq<RuleV>)| x.0).len());
    let ghost mut rk: Seq<int> = Seq::empty();
    proof {
        lemma_strata_sum_bound(strata@, 0);
        assert(n * n >= 0) by (nonlinear_arith);
        assert(strata@.len() * 0 == 0);
        if stratifiable(g) {
            let st = choose|st: Seq<int>| #[trigger] strata_valid(g, st);
            rk = lemma_small_strata(g, st);
        }
    }
    loop
        invariant
            g == registry.groups(),
            n == names.len(),
            n == g.len(),
            forall|f: int, t: int, neg: bool| #[trigger] depends_on(g, f, t, neg) ==> has_edge(edges@, f, t, neg),
            forall|q: int| 0 <= q < edges.len() ==> depends_on(g, (#[trigger] edges@[q]).0 as int, edges@[q].1 as int, edges@[q].2),
            names@.map_values(|s: String| s@) == g.map_values(|x: (Seq<char>, Seq<RuleV>)| x.0),
            strata.len() == n,
            forall|j: int| 0 <= j < n ==> strata@[j] < n,
            forall|q: int| 0 <= q < edges.len() ==> (#[trigger] edges@[q]).0 < n && edges@[q].1 < n,
            stratifiable(g) ==> strata_valid(g, rk) && forall|j: int| 0 <= j < n ==> 0 <= #[trigger] rk[j] < n && strata@[j] <= rk[j],
            0 <= strata_sum(strata@) <= n * n,
            negation_free(g) ==> forall|j: int| 0 <= j < n ==> strata@[j] == 0,
            forall|st: Seq<int>| strata_valid(g, st) && strata_nonneg(st) ==> #[trigger] strata_below(strata@, st),
            distinct_predicates(g),
        decreases n * n - strata_sum(strata@),
    {
        let mut changed = false;
        let ghost s0 = strata@;
        let mut e: usize = 0;
        while e < edges.len()
            invariant
                g == registry.groups(),
                n == names.len(),
                n == g.len(),
                strata.len() == n,
                e <= edges.len(),
                forall|j: int| 0 <= j < n ==> strata@[j] < n,
                forall|q: int| 0 <= q < edges.len() ==> (#[trigger] edges@[q]).0 < n && edges@[q].1 < n,
                forall|q: int| 0 <= q < edges.len() ==> depends_on(g, (#[trigger] edges@[q]).0 as int, edges@[q].1 as int, edges@[q].2),
                stratifiable(g) ==> strata_valid(g, rk) && forall|j: int| 0 <= j < n ==> 0 <= #[trigger] rk[j] < n && strata@[j] <= rk[j],
                !changed ==> strata@ == s0,
                changed ==> strata_sum(strata@) > strata_sum(s0),
                negation_free(g) ==> forall|j: int| 0 <= j < n ==> strata@[j] == 0,
                forall|st: Seq<int>| strata_valid(g, st) && strata_nonneg(st) ==> #[trigger] strata_below(strata@, st),
                distinct_predicates(g),
                !changed ==> forall|q: int| 0 <= q < e ==> strata@[(#[trigger] edges@[q]).0 as int] >= strata@[edges@[q].1 as int] + (if edges@[q].2 {
                    1int
                } else {
                    0int
                }),
            decreases edges.len() - e,
        {
            let (from, to, negative) = edges[e];
            assert(edges@[e as int].0 < n);
            proof {
                if negation_free(g) {
                    assert(depends_on(g, edges@[e as int].0 as int, edges@[e as int].1 as int, edges@[e as int].2));
                    assert(!negative);
                }
            }
            let st = strata[to];
            if negative && st + 1 >= n {
                proof {
                    if stratifiable(g) {
                        assert(depends_on(g, from as int, to as int, negative));
                        assert(rk[from as int] >= rk[to as int] + 1);
                    }
                }
                let m = concat3("Cannot stratify rules: negation through a cycle involving '", names[from].as_str(), "'");
                assert(stratify_message(m@)) by {
                    assert(m@ == "Cannot stratify rules: negation through a cycle involving '"@ + names@[from as int]@ + "'"@);
                }
                return Err(m);
            }
            let need = if negative { st + 1 } else { st };
            if strata[from] < need {
                proof {
                    lemma_strata_sum_update(strata@, from as int, need);
                    if stratifiable(g) {
                        assert(depends_on(g, from as int, to as int, negative));
                    }
                }
                proof {
                    let s_old = strata@;
                    assert forall|st: Seq<int>| strata_valid(g, st) && strata_nonneg(st) implies #[trigger] strata_below(
                        s_old.update(from as int, need),
                        st,
                    ) by {
                        assert(strata_below(s_old, st));
                        assert(depends_on(g, from as int, to as int, negative));
                        assert(st[from as int] >= st[to as int] + (if negative {
                            1int
                        } else {
                            0int
                        }));
                        assert(s_old[to as int] <= st[to as int]);
                        assert forall|j: int| 0 <= j < s_old.update(from as int, need).len() implies s_old.update(
                            from as int,
                            need,
                        )[j] <= #[trigger] st[j] by {
                            if j != from {
                                assert(s_old[j] <= st[j]);
                            }
                        }
                    }
                }
                strata.set(from, need);
                changed = true;
            }
            e = e + 1;
        }
        proof { lemma_strata_sum_bound(strata@, n as int); }
        if !changed {
            proof {
                assert forall|f: int, t: int, neg: bool| #[trigger] depends_on(g, f, t, neg) implies strata@[f]
                    >= strata@[t] + (if neg {
                    1int
                } else {
                    0int
                }) by {
                    let (r, c) = choose|r: int, c: int| #[trigger] dep_via(g, f, r, c, t, neg);
                    assert(0 <= f < n && 0 <= t < n);
                    let k = choose|k: int| 0 <= k < edges@.len() && edges@[k] == (f as usize, t as usize, neg);
                    assert(edges@[k].0 as int == f && edges@[k].1 as int == t);
                }
                let st = strata@.map_values(|x: usize| x as int);
                assert(strata_valid(g, st));
            }
            return Ok((names, strata));
        }
    }
}

/// The stratum of predicate `p` (0 when it has no rules).
fn stratum_of(names: &Vec<String>, strata: &Vec<usize>, p: &str) -> (r: usize)
    requires
        strata.len() == names.len(),
    ensures
        (forall|i: int| 0 <= i < names.len() ==> names@[i]@ != p@) ==> r == 0,
        forall|i: int|
            0 <= i < names.len() && #[trigger] names@[i]@ == p@ && (forall|j: int| 0 <= j < i ==> names@[j]@ != p@)
                ==> r == strata@[i],
        r == 0 || exists|i: int| 0 <= i < strata.len() && r == strata@[i],
{
    match index_of(names, p) {
        Some(i) => strata[i],
        None => 0,
    }
}

/// Whether a string occurs in a list.
fn contains_name(v: &Vec<String>, x: &str) -> (r: bool)
    ensures
        r == exists|i: int| 0 <= i < v.len() && v@[i]@ == x@,
{
    match index_of(v, x) {
        Some(_) => true,
        None => false,
    }
}

/// The patterns of a rule's positive clauses: its patterns, and its rule
/// invocations of arity one or two.
fn positive_patterns(body: &Vec<WhereClause>) -> (r: Vec<Pattern>)
    ensures
        patterns_view(r@) == negated_patterns(clause_seq_view(body@), Map::empty()),
{
    let empty = Bindings::new();
    let ghost cv = clause_seq_view(body@);
    let mut out: Vec<Pattern> = Vec::new();
    let mut i: usize = 0;
    assert(patterns_view(out@) =~= negated_patterns(cv.subrange(0, 0), Map::empty()));
    while i < body.len()
        invariant
            i <= body.len(),
            cv == clause_seq_view(body@),
            empty@ == Map::<Seq<char>, ValueV>::empty(),
            patterns_view(out@) == negated_patterns(cv.subrange(0, i as int), Map::empty()),
        decreases body.len() - i,
    {
        assert(cv.subrange(0, i + 1).drop_last() =~= cv.subrange(0, i as int));
        assert(cv.subrange(0, i + 1).last() == body@[i as int]@);
        let ghost before = patterns_view(out@);
        match &body[i] {
            WhereClause::Pattern(p) => {
                let q = substitute_pattern(p, &empty);
                out.push(q);
                assert(patterns_view(out@) =~= before.push(q@));
            },
            WhereClause::RuleInvocation { predicate, args } => {
                if let Ok(p) = rule_invocation_to_pattern(predicate.as_str(), args.as_slice()) {
                    let q = substitute_pattern(&p, &empty);
                    out.push(q);
                    assert(patterns_view(out@) =~= before.push(q@));
                }
            },
            _ => {},
        }
        i = i + 1;
    }
    assert(cv.subrange(0, body.len() as int) =~= cv);
    out
}

/// The patterns of a `not` body under a binding, in order: each pattern with
/// its bound variables replaced, and each rule invocation with its arguments
/// replaced, then turned into its pattern (invocations of the wrong arity are
/// left out).
pub open spec fn not_patterns(clauses: Seq<ClauseV>, b: BindingV) -> Seq<PatternV>
    decreases clauses.len(),
{
    if clauses.len() == 0 {
        seq![]
    } else {
        let prev = not_patterns(clauses.drop_last(), b);
        match clauses.last() {
            ClauseV::Pattern(p) => prev.push(subst_pattern(p, b)),
            ClauseV::RuleInvocation { predicate, args } => match invocation_pattern(
                predicate,
                args.map_values(|a: EdnV| subst_edn(a, b)),
            ) {
                Some(p) => prev.push(p),
                None => prev,
            },
            _ => prev,
        }
    }
}

/// A `not` body's patterns under a binding: patterns with their bound
/// variables replaced; rule invocations with their arguments replaced.
fn not_body_patterns(body: &Vec<WhereClause>, b: &Bindings) -> (r: Vec<Pattern>)
    ensures
        patterns_view(r@) == not_patterns(clause_seq_view(body@), b@),
{
    let ghost cv = clause_seq_view(body@);
    let mut out: Vec<Pattern> = Vec::new();
    let mut i: usize = 0;
    assert(patterns_view(out@) =~= not_patterns(cv.subrange(0, 0), b@));
    while i < body.len()
        invariant
            i <= body.len(),
            cv == clause_seq_view(body@),
            patterns_view(out@) == not_patterns(cv.subrange(0, i as int), b@),
        decreases body.len() - i,
    {
        assert(cv.subrange(0, i + 1).drop_last() =~= cv.subrange(0, i as int));
        assert(cv.subrange(0, i + 1).last() == body@[i as int]@);
        let ghost before = patterns_view(out@);
        match &body[i] {
            WhereClause::Pattern(p) => {
                let q = substitute_pattern(p, b);
                out.push(q);
                assert(patterns_view(out@) =~= before.push(q@));
            },
            WhereClause::RuleInvocation { predicate, args } => {
                let ghost av = edn_seq_view(args@);
                let mut subst: Vec<EdnValue> = Vec::new();
                let mut k: usize = 0;
                while k < args.len()
                    invariant
                        k <= args.len(),
                        av == edn_seq_view(args@),
                        edn_seq_view(subst@) =~= av.subrange(0, k as int).map_values(
                            |a: EdnV| subst_edn(a, b@),
                        ),
                    decreases args.len() - k,
                {
                    let ghost sv = edn_seq_view(subst@);
                    let e = substitute_value(&args[k], b);
                    subst.push(e);
                    assert(edn_seq_view(subst@) =~= sv.push(e@));
                    assert(av.subrange(0, k + 1).map_values(|a: EdnV| subst_edn(a, b@)) =~= av.subrange(
                        0,
                        k as int,
                    ).map_values(|a: EdnV| subst_edn(a, b@)).push(subst_edn(av[k as int], b@)));
                    k = k + 1;
                }
                assert(av.subrange(0, args.len() as int) =~= av);
                if let Ok(p) = rule_invocation_to_pattern(predicate.as_str(), subst.as_slice()) {
                    out.push(p);
                    assert(patterns_view(out@) =~= before.push(p@));
                }
            },
            _ => {},
        }
        i = i + 1;
    }
    assert(cv.subrange(0, body.len() as int) =~= cv);
    out
}

/// Whether a `not` body has a satisfying row under the binding (`None` when
/// an expression overflows): its patterns (see [`not_patterns`]) matched
/// against the facts with the binding's other variables added to each row,
/// or the binding itself when there are none, then its expression clauses.
fn not_body_holds(body: &Vec<WhereClause>, binding: &Bindings, facts: &Vec<Fact>) -> (r: Option<bool>)
    ensures
        match rows_for(
            not_patterns(clause_seq_view(body@), binding@),
            binding@,
            fact_triples(facts@),
            clause_seq_view(body@),
        ) {
            Some(rows) => r == Some(rows.len() > 0),
            None => r is None,
        },
{
    let patterns = not_body_patterns(body, binding);
    body_rows_exist(patterns, body, binding, facts)
}

pub proof fn lemma_net_asserted_asserted(fs: Seq<Fact>, k: int)
    requires
        0 <= k <= fs.len(),
    ensures
        forall|j: int| 0 <= j < net_prefix(fs, k).len() ==> (#[trigger] net_prefix(fs, k)[j]).asserted,
    decreases k,
{
    if k > 0 {
        lemma_net_asserted_asserted(fs, k - 1);
        if net_kept(fs, k - 1) {
            let p = net_prefix(fs, k - 1);
            assert forall|j: int| 0 <= j < p.push(fs[k - 1]).len() implies (#[trigger] p.push(fs[k - 1])[j]).asserted by {
                if j < p.len() {
                    assert(p.push(fs[k - 1])[j] == p[j]);
                }
            }
        }
    }
}

/// Whether `a` is the attribute that a rule head derives: `:` followed by
/// the head's predicate symbol.
pub open spec fn head_attr(head: Seq<EdnV>, a: Seq<char>) -> bool {
    head.len() >= 1 && head[0] is Symbol && a == pred_attr(head[0]->Symbol_0)
}

/// Whether `a` is the head attribute of one of the rules.
pub open spec fn some_head_attr(rules: Seq<RuleV>, a: Seq<char>) -> bool {
    exists|i: int| 0 <= i < rules.len() && #[trigger] head_attr(rules[i].head, a)
}

/// Whether `a` is the head attribute of a rule of the groups.
pub open spec fn groups_head_attr(groups: Seq<(Seq<char>, Seq<RuleV>)>, a: Seq<char>) -> bool {
    exists|g: int, i: int| 0 <= g < groups.len() && 0 <= i < groups[g].1.len() && #[trigger] head_attr(
        groups[g].1[i].head,
        a,
    )
}

/// Whether every rule of `sub` is a rule of `groups`.
pub open spec fn rules_within(sub: Seq<(Seq<char>, Seq<RuleV>)>, groups: Seq<(Seq<char>, Seq<RuleV>)>) -> bool {
    forall|g: int, i: int| 0 <= g < sub.len() && 0 <= i < sub[g].1.len() ==> is_group_rule(groups, #[trigger] sub[g].1[i])
}

/// Whether `rule` is a rule of the groups.
pub open spec fn is_group_rule(groups: Seq<(Seq<char>, Seq<RuleV>)>, rule: RuleV) -> bool {
    exists|g: int, i: int| 0 <= g < groups.len() && 0 <= i < groups[g].1.len() && #[trigger] groups[g].1[i] == rule
}

proof fn lemma_group_rule_attr(groups: Seq<(Seq<char>, Seq<RuleV>)>, rule: RuleV, a: Seq<char>)
    requires
        is_group_rule(groups, rule),
        head_attr(rule.head, a),
    ensures
        groups_head_attr(groups, a),
{
    let (g, i) = choose|g: int, i: int| 0 <= g < groups.len() && 0 <= i < groups[g].1.len() && #[trigger] groups[g].1[i] == rule;
    assert(head_attr(groups[g].1[i].head, a));
}

proof fn lemma_rules_for_member(groups: Seq<(Seq<char>, Seq<RuleV>)>, p: Seq<char>, i: int)
    requires
        0 <= i < rules_for(groups, p).len(),
    ensures
        is_group_rule(groups, rules_for(groups, p)[i]),
{
    let g = group_index(groups, p)->Some_0;
    assert(groups[g].1[i] == rules_for(groups, p)[i]);
}

proof fn lemma_with_rule_within(s: Seq<(Seq<char>, Seq<RuleV>)>, groups: Seq<(Seq<char>, Seq<RuleV>)>, p: Seq<char>, x: RuleV)
    requires
        rules_within(s, groups),
        is_group_rule(groups, x),
    ensures
        rules_within(with_rule(s, p, x), groups),
{
    let t = with_rule(s, p, x);
    assert forall|g: int, i: int| 0 <= g < t.len() && 0 <= i < t[g].1.len() implies is_group_rule(groups, #[trigger] t[g].1[i]) by {
        match group_index(s, p) {
            Some(k) => {
                if g == k {
                    if i < s[k].1.len() {
                        assert(t[g].1[i] == s[k].1[i]);
                    } else {
                        assert(t[g].1[i] == x);
                    }
                } else {
                    assert(t[g] == s[g]);
                }
            },
            None => {
                if g < s.len() {
                    assert(t[g] == s[g]);
                } else {
                    assert(t[g].1 == seq![x]);
                }
            },
        }
    }
}

proof fn lemma_spec_head_attr(head: Seq<EdnV>, b: BindingV)
    ensures
        spec_head(head, b) matches Ok(t) ==> head_attr(head, t.1),
{
}

proof fn lemma_heads_of_attr(head: Seq<EdnV>, rows: Seq<BindingV>)
    ensures
        heads_of(head, rows) matches Ok(ts) ==> forall|k: int| 0 <= k < ts.len() ==> head_attr(head, #[trigger] ts[k].1),
    decreases rows.len(),
{
    if rows.len() > 0 {
        lemma_heads_of_attr(head, rows.drop_last());
        lemma_spec_head_attr(head, rows.last());
        if let Ok(ts) = heads_of(head, rows) {
            let prev = heads_of(head, rows.drop_last())->Ok_0;
            assert forall|k: int| 0 <= k < ts.len() implies head_attr(head, #[trigger] ts[k].1) by {
                if k < prev.len() {
                    assert(ts[k] == prev[k]);
                }
            }
        }
    }
}

proof fn lemma_derive_rule_attr(rule: RuleV, facts: Seq<Triple>)
    ensures
        derive_rule(rule, facts) matches Outcome::Done(ts) ==> forall|k: int| 0 <= k < ts.len() ==> head_attr(
            rule.head,
            #[trigger] ts[k].1,
        ),
{
    match scan_body(rule.body, rule.body.len() as int) {
        Ok(ps) => if !(ps.len() == 0 && !has_expr(rule.body)) {
            if let Some(rows) = expr_clauses_rows(join_fold(ps, facts, seq![Map::empty()]), rule.body) {
                lemma_heads_of_attr(rule.head, rows);
            }
        },
        _ => {},
    }
}

proof fn lemma_derive_all_attr(rules: Seq<RuleV>, facts: Seq<Triple>)
    ensures
        derive_all(rules, facts) matches Outcome::Done(ts) ==> forall|k: int| 0 <= k < ts.len() ==> some_head_attr(
            rules,
            #[trigger] ts[k].1,
        ),
    decreases rules.len(),
{
    if rules.len() > 0 {
        let d = rules.drop_last();
        lemma_derive_all_attr(d, facts);
        lemma_derive_rule_attr(rules.last(), facts);
        if let Outcome::Done(all) = derive_all(rules, facts) {
            let ts = derive_all(d, facts)->Done_0;
            let us = derive_rule(rules.last(), facts)->Done_0;
            assert(all == ts + us);
            assert forall|k: int| 0 <= k < all.len() implies some_head_attr(rules, #[trigger] all[k].1) by {
                if k < ts.len() {
                    assert(all[k] == ts[k]);
                    let i = choose|i: int| 0 <= i < d.len() && #[trigger] head_attr(d[i].head, ts[k].1);
                    assert(rules[i] == d[i]);
                } else {
                    assert(all[k] == us[k - ts.len()]);
                    assert(head_attr(rules[rules.len() - 1].head, all[k].1));
                }
            }
        }
    }
}

proof fn lemma_fresh_delta_within(known: Seq<Triple>, new: Seq<Triple>)
    ensures
        forall|k: int| 0 <= k < fresh_delta(known, new).len() ==> new.contains(#[trigger] fresh_delta(known, new)[k]),
    decreases new.len(),
{
    if new.len() > 0 {
        let n2 = new.drop_last();
        lemma_fresh_delta_within(known, n2);
        let d = fresh_delta(known, n2);
        assert forall|k: int| 0 <= k < fresh_delta(known, new).len() implies new.contains(#[trigger] fresh_delta(known, new)[k]) by {
            if k < d.len() {
                assert(fresh_delta(known, new)[k] == d[k]);
                let w = choose|w: int| 0 <= w < n2.len() && n2[w] == d[k];
                assert(new[w] == n2[w]);
            } else {
                assert(fresh_delta(known, new)[k] == new[new.len() - 1]);
            }
        }
    }
}

/// What a fixed-point iteration returns is known, or a fact with the head
/// attribute of one of the rules.
proof fn lemma_fixpoint_attr(rules: Seq<RuleV>, known: Seq<Triple>, count: int, fuel: nat, max: nat)
    ensures
        fixpoint(rules, known, count, fuel, max) matches Outcome::Done(res) ==> forall|k: int| 0 <= k < res.len()
            ==> known.contains(#[trigger] res[k]) || some_head_attr(rules, res[k].1),
    decreases fuel,
{
    if fuel > 0 {
        lemma_derive_all_attr(rules, known);
        if let Outcome::Done(new) = derive_all(rules, known) {
            let d = fresh_delta(known, new);
            lemma_fresh_delta_within(known, new);
            if d.len() > 0 && count + d.len() <= u64::MAX {
                lemma_fixpoint_attr(rules, known + d, count + d.len(), (fuel - 1) as nat, max);
                if let Outcome::Done(res) = fixpoint(rules, known, count, fuel, max) {
                    assert forall|k: int| 0 <= k < res.len() implies known.contains(#[trigger] res[k]) || some_head_attr(
                        rules,
                        res[k].1,
                    ) by {
                        if (known + d).contains(res[k]) {
                            let w = choose|w: int| 0 <= w < (known + d).len() && (known + d)[w] == res[k];
                            if w < known.len() {
                                assert(known[w] == res[k]);
                            } else {
                                assert(d[w - known.len()] == res[k]);
                                let v = choose|v: int| 0 <= v < new.len() && new[v] == d[w - known.len()];
                                assert(some_head_attr(rules, new[v].1));
                            }
                        }
                    }
                }
            }
        }
    }
}

proof fn lemma_drop_triple_within(ts: Seq<Triple>, t: Triple)
    ensures
        forall|k: int| 0 <= k < drop_triple(ts, t).len() ==> ts.contains(#[trigger] drop_triple(ts, t)[k]),
    decreases ts.len(),
{
    if ts.len() > 0 {
        let p = ts.drop_last();
        lemma_drop_triple_within(p, t);
        let d = drop_triple(p, t);
        assert forall|k: int| 0 <= k < drop_triple(ts, t).len() implies ts.contains(#[trigger] drop_triple(ts, t)[k]) by {
            if k < d.len() {
                assert(drop_triple(ts, t)[k] == d[k]);
                let w = choose|w: int| 0 <= w < p.len() && p[w] == d[k];
                assert(ts[w] == p[w]);
            } else {
                assert(drop_triple(ts, t)[k] == ts[ts.len() - 1]);
            }
        }
    }
}

proof fn lemma_keep_last_within(ts: Seq<Triple>)
    ensures
        forall|k: int| 0 <= k < keep_last(ts).len() ==> ts.contains(#[trigger] keep_last(ts)[k]),
    decreases ts.len(),
{
    if ts.len() > 0 {
        let p = ts.drop_last();
        lemma_keep_last_within(p);
        lemma_drop_triple_within(keep_last(p), ts.last());
        let d = drop_triple(keep_last(p), ts.last());
        assert forall|k: int| 0 <= k < keep_last(ts).len() implies ts.contains(#[trigger] keep_last(ts)[k]) by {
            if k < d.len() {
                assert(keep_last(ts)[k] == d[k]);
                let w = choose|w: int| 0 <= w < keep_last(p).len() && keep_last(p)[w] == d[k];
                let v = choose|v: int| 0 <= v < p.len() && p[v] == keep_last(p)[w];
                assert(ts[v] == p[v]);
            } else {
                assert(keep_last(ts)[k] == ts[ts.len() - 1]);
            }
        }
    }
}

proof fn lemma_rules_of_attr(groups: Seq<(Seq<char>, Seq<RuleV>)>, preds: Seq<Seq<char>>, a: Seq<char>)
    requires
        some_head_attr(rules_of(groups, preds), a),
    ensures
        groups_head_attr(groups, a),
    decreases preds.len(),
{
    let rs = rules_of(groups, preds);
    let i = choose|i: int| 0 <= i < rs.len() && #[trigger] head_attr(rs[i].head, a);
    let prev = rules_of(groups, preds.drop_last());
    if i < prev.len() {
        assert(rs[i] == prev[i]);
        lemma_rules_of_attr(groups, preds.drop_last(), a);
    } else {
        let last = rules_for(groups, preds.last());
        assert(rs[i] == last[i - prev.len()]);
        lemma_rules_for_member(groups, preds.last(), i - prev.len());
        lemma_group_rule_attr(groups, rs[i], a);
    }
}

proof fn lemma_within_attr(sub: Seq<(Seq<char>, Seq<RuleV>)>, groups: Seq<(Seq<char>, Seq<RuleV>)>, a: Seq<char>)
    requires
        rules_within(sub, groups),
        groups_head_attr(sub, a),
    ensures
        groups_head_attr(groups, a),
{
    let (g, i) = choose|g: int, i: int| 0 <= g < sub.len() && 0 <= i < sub[g].1.len() && #[trigger] head_attr(sub[g].1[i].head, a);
    assert(is_group_rule(groups, sub[g].1[i]));
    lemma_group_rule_attr(groups, sub[g].1[i], a);
}

/// Whether every record of `fs` after `base` has the head attribute of a rule
/// of the groups.
pub open spec fn derived_from_heads(base: Seq<Fact>, fs: Seq<Fact>, groups: Seq<(Seq<char>, Seq<RuleV>)>) -> bool {
    forall|j: int| base.len() <= j < fs.len() ==> groups_head_attr(groups, (#[trigger] fs[j]).attribute@)
}

proof fn lemma_derived_push(base: Seq<Fact>, fs: Seq<Fact>, groups: Seq<(Seq<char>, Seq<RuleV>)>, x: Fact)
    requires
        derived_from_heads(base, fs, groups),
        groups_head_attr(groups, x.attribute@),
    ensures
        derived_from_heads(base, fs.push(x), groups),
{
    assert forall|j: int| base.len() <= j < fs.push(x).len() implies groups_head_attr(groups, (#[trigger] fs.push(x)[j]).attribute@) by {
        if j < fs.len() {
            assert(fs.push(x)[j] == fs[j]);
        }
    }
}

/// Evaluates Datalog rules with stratified negation support.
///
/// Strata are evaluated in ascending order. Within each stratum, positive-only
/// rules are handled by RecursiveEvaluator; rules containing `not` clauses are
/// handled by an inner loop that applies `not` filters to candidate bindings.
pub struct StratifiedEvaluator {
    storage: FactStorage,
    rules: RuleRegistry,
    max_iterations: usize,
}

/// Whether no rule of the groups has a `not` or `not-join` clause.
pub open spec fn no_negated_clauses(groups: Seq<(Seq<char>, Seq<RuleV>)>) -> bool {
    forall|g: int, i: int, c: int|
        0 <= g < groups.len() && 0 <= i < groups[g].1.len() && 0 <= c < groups[g].1[i].body.len() ==> !is_negation(
            #[trigger] groups[g].1[i].body[c],
        )
}

/// Whether every record is an assertion.
pub open spec fn all_assertions(fs: Seq<Fact>) -> bool {
    forall|j: int| 0 <= j < fs.len() ==> (#[trigger] fs[j]).asserted
}

/// `list` with each name of `deps` appended, in order, that it does not hold
/// yet and that is among `names`.
pub open spec fn add_deps(list: Seq<Seq<char>>, deps: Seq<Seq<char>>, names: Seq<Seq<char>>) -> Seq<Seq<char>>
    decreases deps.len(),
{
    if deps.len() == 0 {
        list
    } else {
        let l = add_deps(list, deps.drop_last(), names);
        let d = deps.last();
        if !l.contains(d) && names.contains(d) {
            l.push(d)
        } else {
            l
        }
    }
}

/// The predicates that the bodies of the rules invoke, in order.
pub open spec fn rules_deps(rules: Seq<RuleV>) -> Seq<Seq<char>>
    decreases rules.len(),
{
    if rules.len() == 0 {
        seq![]
    } else {
        rules_deps(rules.drop_last()) + cvs_preds(rules.last().body)
    }
}

/// The worklist of predicates from position `i` on (with `fuel` steps
/// left): the predicates that the rules of `list[i]` invoke and that have
/// rules are added, then the next position is taken.
pub open spec fn closure_from(groups: Seq<(Seq<char>, Seq<RuleV>)>, list: Seq<Seq<char>>, i: nat, fuel: nat) -> Seq<
    Seq<char>,
>
    decreases fuel,
{
    if fuel == 0 || i >= list.len() {
        list
    } else {
        closure_from(
            groups,
            add_deps(list, rules_deps(rules_for(groups, list[i as int])), group_names(groups)),
            i + 1,
            (fuel - 1) as nat,
        )
    }
}

/// The requested predicates followed by every predicate with rules that
/// they invoke, directly or through other rules, in the order the worklist
/// finds them.
pub open spec fn pred_closure(groups: Seq<(Seq<char>, Seq<RuleV>)>, preds: Seq<Seq<char>>) -> Seq<Seq<char>> {
    closure_from(groups, preds, 0, preds.len() + groups.len() + 1)
}

/// The groups with the rules registered for `p`, one at a time.
pub open spec fn with_rules(s: Seq<(Seq<char>, Seq<RuleV>)>, p: Seq<char>, rules: Seq<RuleV>) -> Seq<
    (Seq<char>, Seq<RuleV>),
>
    decreases rules.len(),
{
    if rules.len() == 0 {
        s
    } else {
        with_rule(with_rules(s, p, rules.drop_last()), p, rules.last())
    }
}

/// A registry holding the rules of each of the predicates, registered in turn.
pub open spec fn registry_of(groups: Seq<(Seq<char>, Seq<RuleV>)>, preds: Seq<Seq<char>>) -> Seq<
    (Seq<char>, Seq<RuleV>),
>
    decreases preds.len(),
{
    if preds.len() == 0 {
        seq![]
    } else {
        with_rules(registry_of(groups, preds.drop_last()), preds.last(), rules_for(groups, preds.last()))
    }
}

/// What stratified evaluation gives when no rule has a negated clause: the
/// base triples followed by the new triples of the recursive evaluation of
/// the requested predicates and those they depend on (the base triples alone
/// when those predicates have no rules).
pub open spec fn positive_model(
    base: Seq<Fact>,
    groups: Seq<(Seq<char>, Seq<RuleV>)>,
    preds: Seq<Seq<char>>,
    max: nat,
) -> Outcome<Seq<Triple>> {
    let c = pred_closure(groups, preds);
    let bt = fact_triples(net_asserted(base));
    if rules_of(groups, c).len() == 0 {
        Outcome::Done(bt)
    } else {
        match recursive_outcome(base, registry_of(groups, c), c, max) {
            Outcome::Done(res) => Outcome::Done(bt + fresh_delta(bt, res)),
            Outcome::Failed(m) => Outcome::Failed(m),
            Outcome::Panic => Outcome::Panic,
        }
    }
}

proof fn lemma_add_deps_concat(list: Seq<Seq<char>>, a: Seq<Seq<char>>, b: Seq<Seq<char>>, names: Seq<Seq<char>>)
    ensures
        add_deps(list, a + b, names) == add_deps(add_deps(list, a, names), b, names),
    decreases b.len(),
{
    if b.len() == 0 {
        assert(a + b =~= a);
    } else {
        lemma_add_deps_concat(list, a, b.drop_last(), names);
        assert((a + b).drop_last() =~= a + b.drop_last());
        assert((a + b).last() == b.last());
    }
}

proof fn lemma_with_rules(s: Seq<(Seq<char>, Seq<RuleV>)>, p: Seq<char>, rs: Seq<RuleV>, q: Seq<char>)
    requires
        distinct_predicates(s),
    ensures
        distinct_predicates(with_rules(s, p, rs)),
        rules_for(with_rules(s, p, rs), p) == rules_for(s, p) + rs,
        q != p ==> rules_for(with_rules(s, p, rs), q) == rules_for(s, q),
    decreases rs.len(),
{
    if rs.len() == 0 {
        assert(rules_for(s, p) + rs =~= rules_for(s, p));
    } else {
        lemma_with_rules(s, p, rs.drop_last(), q);
        let w = with_rules(s, p, rs.drop_last());
        lemma_register_then_get(w, p, rs.last(), q);
        assert(rules_for(s, p) + rs.drop_last() + seq![rs.last()] =~= rules_for(s, p) + rs);
        assert((rules_for(s, p) + rs.drop_last()).push(rs.last()) =~= rules_for(s, p) + rs);
    }
}

/// The registry built for distinct predicates holds exactly their rules.
proof fn lemma_registry_of(groups: Seq<(Seq<char>, Seq<RuleV>)>, c: Seq<Seq<char>>, q: Seq<char>)
    requires
        c.no_duplicates(),
    ensures
        distinct_predicates(registry_of(groups, c)),
        rules_for(registry_of(groups, c), q) == if c.contains(q) {
            rules_for(groups, q)
        } else {
            seq![]
        },
    decreases c.len(),
{
    if c.len() == 0 {
        let e = registry_of(groups, c);
        assert(e.len() == 0);
        assert(group_index(e, q) is None);
    } else {
        let c0 = c.drop_last();
        let x = c.last();
        assert(c0.no_duplicates()) by {
            assert forall|a: int, b: int| 0 <= a < c0.len() && 0 <= b < c0.len() && a != b implies c0[a] != c0[b] by {
                assert(c0[a] == c[a] && c0[b] == c[b]);
            }
        }
        lemma_registry_of(groups, c0, q);
        lemma_registry_of(groups, c0, x);
        assert(!c0.contains(x)) by {
            if c0.contains(x) {
                let j = choose|j: int| 0 <= j < c0.len() && c0[j] == x;
                assert(c[j] == c[c.len() - 1]);
            }
        }
        let r0 = registry_of(groups, c0);
        lemma_with_rules(r0, x, rules_for(groups, x), q);
        assert(rules_for(r0, x) + rules_for(groups, x) =~= rules_for(groups, x));
        assert(c.contains(q) == (c0.contains(q) || q == x)) by {
            if c.contains(q) {
                let j = choose|j: int| 0 <= j < c.len() && c[j] == q;
                if j < c.len() - 1 {
                    assert(c0[j] == q);
                }
            }
            if c0.contains(q) {
                let j = choose|j: int| 0 <= j < c0.len() && c0[j] == q;
                assert(c[j] == q);
            }
            assert(c[c.len() - 1] == x);
        }
    }
}

proof fn lemma_rules_of_registry(groups: Seq<(Seq<char>, Seq<RuleV>)>, c: Seq<Seq<char>>, d: Seq<Seq<char>>)
    requires
        c.no_duplicates(),
        forall|j: int| 0 <= j < d.len() ==> c.contains(#[trigger] d[j]),
    ensures
        rules_of(registry_of(groups, c), d) == rules_of(groups, d),
    decreases d.len(),
{
    if d.len() > 0 {
        lemma_rules_of_registry(groups, c, d.drop_last());
        assert(d[d.len() - 1] == d.last());
        lemma_registry_of(groups, c, d.last());
    }
}

proof fn lemma_add_deps_distinct(list: Seq<Seq<char>>, deps: Seq<Seq<char>>, names: Seq<Seq<char>>)
    requires
        list.no_duplicates(),
    ensures
        add_deps(list, deps, names).no_duplicates(),
    decreases deps.len(),
{
    if deps.len() > 0 {
        lemma_add_deps_distinct(list, deps.drop_last(), names);
        let l = add_deps(list, deps.drop_last(), names);
        let d = deps.last();
        if !l.contains(d) && names.contains(d) {
            assert forall|a: int, b: int| 0 <= a < l.push(d).len() && 0 <= b < l.push(d).len() && a != b implies l.push(
                d,
            )[a] != l.push(d)[b] by {
                if a < l.len() && b < l.len() {
                } else if a == l.len() {
                    assert(l.push(d)[b] == l[b]);
                } else {
                    assert(l.push(d)[a] == l[a]);
                }
            }
        }
    }
}

proof fn lemma_closure_distinct(groups: Seq<(Seq<char>, Seq<RuleV>)>, list: Seq<Seq<char>>, i: nat, fuel: nat)
    requires
        list.no_duplicates(),
    ensures
        closure_from(groups, list, i, fuel).no_duplicates(),
    decreases fuel,
{
    if fuel > 0 && i < list.len() {
        let next = add_deps(list, rules_deps(rules_for(groups, list[i as int])), group_names(groups));
        lemma_add_deps_distinct(list, rules_deps(rules_for(groups, list[i as int])), group_names(groups));
        lemma_closure_distinct(groups, next, i + 1, (fuel - 1) as nat);
    }
}

/// Stratified evaluation of rules without negated clauses (see
/// [`StratifiedEvaluator::evaluate`]), over records that all assert, gives
/// the same facts as recursive evaluation (see
/// [`RecursiveEvaluator::evaluate_recursive_rules`]) of the requested
/// predicates and all those they depend on: the same set of triples, or the
/// same failure.
pub proof fn lemma_stratified_matches_recursive(
    base: Seq<Fact>,
    counter: int,
    groups: Seq<(Seq<char>, Seq<RuleV>)>,
    preds: Seq<Seq<char>>,
    max: nat,
)
    requires
        no_negated_clauses(groups),
        all_assertions(base),
        preds.no_duplicates(),
        max > 0,
    ensures
        match stratified_model(base, counter, groups, preds, max) {
            Outcome::Done(a) => recursive_outcome(base, groups, pred_closure(groups, preds), max) matches Outcome::Done(b)
                && a.to_set() == b.to_set(),
            Outcome::Failed(m) => recursive_outcome(base, groups, pred_closure(groups, preds), max) == Outcome::<
                Seq<Triple>,
            >::Failed(m),
            Outcome::Panic => recursive_outcome(base, groups, pred_closure(groups, preds), max) is Panic,
        },
{
    lemma_models_agree(base, counter, groups, preds, max);
    let c = pred_closure(groups, preds);
    let bt = fact_triples(net_asserted(base));
    let kb = keep_last(bt);
    lemma_closure_distinct(groups, preds, 0, preds.len() + groups.len() + 1);
    assert forall|j: int| 0 <= j < c.len() implies c.contains(#[trigger] c[j]) by {}
    lemma_rules_of_registry(groups, c, c);
    let rs = rules_of(groups, c);
    if rs.len() == 0 {
        assert(derive_all(rs, kb) == Outcome::<Seq<Triple>>::Done(seq![]));
        assert(fresh_delta(kb, seq![]) =~= Seq::<Triple>::empty());
        assert forall|u: Triple| bt.to_set().contains(u) == kb.to_set().contains(u) by {
            lemma_keep_last_contains(bt, u);
        }
        assert(bt.to_set() =~= kb.to_set());
    } else {
        if let Outcome::Done(res) = recursive_outcome(base, groups, c, max) {
            lemma_fixpoint_extends(rs, kb, bt.len() as int, max, max);
            let a = bt + fresh_delta(bt, res);
            lemma_fresh_delta(bt, res);
            assert forall|u: Triple| a.to_set().contains(u) == res.to_set().contains(u) by {
                lemma_concat_contains(bt, fresh_delta(bt, res), u);
                lemma_keep_last_contains(bt, u);
                if kb.contains(u) {
                    let w = choose|w: int| 0 <= w < kb.len() && kb[w] == u;
                    assert(res.subrange(0, kb.len() as int)[w] == u);
                    assert(res[w] == u);
                }
                if res.contains(u) && !bt.contains(u) {
                }
            }
            assert(a.to_set() =~= res.to_set());
        }
    }
}

/// What a record contributes to the net-asserted view: its triple, its
/// transaction count and whether it is an assertion.
pub type RecShape = (Triple, int, bool);

/// The shape of a record.
pub open spec fn rec_shape(f: Fact) -> RecShape {
    (fact_triple(f), f.tx_count as int, f.asserted)
}

/// The shapes of the records, in order.
pub open spec fn rec_shapes(fs: Seq<Fact>) -> Seq<RecShape> {
    fs.map_values(|f: Fact| rec_shape(f))
}

/// Whether record `i` survives in the net-asserted view: it asserts, and no
/// record of its triple has a higher transaction count.
pub open spec fn shape_kept(ss: Seq<RecShape>, i: int) -> bool {
    ss[i].2 && forall|j: int| #![trigger ss[j]] 0 <= j < ss.len() && ss[j].0 == ss[i].0 ==> ss[j].1 <= ss[i].1
}

/// The triples of the surviving records among the first `k`, in order.
pub open spec fn shape_net_prefix(ss: Seq<RecShape>, k: int) -> Seq<Triple>
    decreases k,
{
    if k <= 0 {
        seq![]
    } else if shape_kept(ss, k - 1) {
        shape_net_prefix(ss, k - 1).push(ss[k - 1].0)
    } else {
        shape_net_prefix(ss, k - 1)
    }
}

/// The triples of the net-asserted view of records with these shapes.
pub open spec fn shape_net(ss: Seq<RecShape>) -> Seq<Triple> {
    shape_net_prefix(ss, ss.len() as int)
}

/// The highest transaction count among the records and `c`.
pub open spec fn shape_max(ss: Seq<RecShape>, c: int) -> int
    decreases ss.len(),
{
    if ss.len() == 0 {
        c
    } else {
        let m = shape_max(ss.drop_last(), c);
        if ss.last().1 > m {
            ss.last().1
        } else {
            m
        }
    }
}

proof fn lemma_shape_net_prefix(fs: Seq<Fact>, k: int)
    requires
        0 <= k <= fs.len(),
    ensures
        fact_triples(net_prefix(fs, k)) == shape_net_prefix(rec_shapes(fs), k),
    decreases k,
{
    if k > 0 {
        lemma_shape_net_prefix(fs, k - 1);
        let ss = rec_shapes(fs);
        assert(net_kept(fs, k - 1) == shape_kept(ss, k - 1)) by {
            if net_kept(fs, k - 1) {
                assert forall|j: int| #![trigger ss[j]] 0 <= j < ss.len() && ss[j].0 == ss[k - 1].0 implies ss[j].1
                    <= ss[k - 1].1 by {
                    assert(same_triple(fs[j], fs[k - 1]));
                }
            }
            if shape_kept(ss, k - 1) {
                assert forall|j: int| 0 <= j < fs.len() && #[trigger] same_triple(fs[j], fs[k - 1]) implies fs[j].tx_count
                    <= fs[k - 1].tx_count by {
                    assert(ss[j].0 == ss[k - 1].0);
                }
            }
        }
        if net_kept(fs, k - 1) {
            assert(fact_triples(net_prefix(fs, k - 1).push(fs[k - 1])) =~= fact_triples(net_prefix(fs, k - 1)).push(
                fact_triple(fs[k - 1]),
            ));
        }
    } else {
        assert(fact_triples(net_prefix(fs, k)) =~= Seq::<Triple>::empty());
    }
}

/// The net-asserted triples depend only on the records' shapes.
pub proof fn lemma_shape_net(fs: Seq<Fact>)
    ensures
        fact_triples(net_asserted(fs)) == shape_net(rec_shapes(fs)),
{
    lemma_shape_net_prefix(fs, fs.len() as int);
}

proof fn lemma_shape_max(fs: Seq<Fact>, c: int)
    ensures
        max_count(fs, c) == shape_max(rec_shapes(fs), c),
    decreases fs.len(),
{
    if fs.len() > 0 {
        lemma_shape_max(fs.drop_last(), c);
        assert(rec_shapes(fs).drop_last() =~= rec_shapes(fs.drop_last()));
    }
}

/// Whether a `not` clause among the first `k` clauses holds under `b`,
/// checked in order and stopping at the first that does (`None` when an
/// expression overflows first).
pub open spec fn not_scan(cs: Seq<ClauseV>, b: BindingV, facts: Seq<Triple>, k: int) -> Option<bool>
    decreases k,
{
    if k <= 0 {
        Some(false)
    } else {
        match not_scan(cs, b, facts, k - 1) {
            Some(false) => match cs[k - 1] {
                ClauseV::Not(nb) => match rows_for(not_patterns(nb, b), b, facts, nb) {
                    Some(rows) => Some(rows.len() > 0),
                    None => None,
                },
                _ => Some(false),
            },
            other => other,
        }
    }
}

/// Whether a `not-join` clause among the first `k` clauses holds under `b`,
/// checked in order and stopping at the first that does.
pub open spec fn not_join_scan(cs: Seq<ClauseV>, b: BindingV, facts: Seq<Triple>, k: int) -> Option<bool>
    decreases k,
{
    if k <= 0 {
        Some(false)
    } else {
        match not_join_scan(cs, b, facts, k - 1) {
            Some(false) => match cs[k - 1] {
                ClauseV::NotJoin { join_vars, clauses } => not_join_holds(join_vars, clauses, b, facts),
                _ => Some(false),
            },
            other => other,
        }
    }
}

/// Whether a binding is rejected by the body's negations: first its `not`
/// clauses, then its `not-join` clauses (`None` when an expression overflows).
pub open spec fn rejected_by(cs: Seq<ClauseV>, b: BindingV, facts: Seq<Triple>) -> Option<bool> {
    match not_scan(cs, b, facts, cs.len() as int) {
        Some(false) => not_join_scan(cs, b, facts, cs.len() as int),
        other => other,
    }
}

/// One candidate binding of a rule with negations: unless a negation rejects
/// it, its head fact is asserted in a transaction of its own (nothing
/// happens when the head cannot be built or the counter is exhausted).
pub open spec fn cand_step(st: (Seq<RecShape>, int), rule: RuleV, b: BindingV) -> Option<(Seq<RecShape>, int)> {
    match rejected_by(rule.body, b, shape_net(st.0)) {
        None => None,
        Some(true) => Some(st),
        Some(false) => match spec_head(rule.head, b) {
            Ok(t) => if st.1 >= u64::MAX {
                Some(st)
            } else {
                Some((st.0.push((t, st.1 + 1, true)), st.1 + 1))
            },
            Err(_) => Some(st),
        },
    }
}

/// The candidates of a rule, one after another.
pub open spec fn cands_fold(st: (Seq<RecShape>, int), rule: RuleV, cands: Seq<BindingV>) -> Option<(Seq<RecShape>, int)>
    decreases cands.len(),
{
    if cands.len() == 0 {
        Some(st)
    } else {
        match cands_fold(st, rule, cands.drop_last()) {
            Some(s2) => cand_step(s2, rule, cands.last()),
            None => None,
        }
    }
}

/// A rule with negations: its candidates are the matches of its positive
/// patterns over the facts at the start, with its expression clauses applied.
pub open spec fn neg_rule_step(st: (Seq<RecShape>, int), rule: RuleV) -> Option<(Seq<RecShape>, int)> {
    match expr_clauses_rows(
        join_fold(negated_patterns(rule.body, Map::empty()), shape_net(st.0), seq![Map::empty()]),
        rule.body,
    ) {
        None => None,
        Some(cands) => cands_fold(st, rule, cands),
    }
}

/// The rules with negations, one after another.
pub open spec fn neg_rules_fold(st: (Seq<RecShape>, int), rules: Seq<RuleV>) -> Option<(Seq<RecShape>, int)>
    decreases rules.len(),
{
    if rules.len() == 0 {
        Some(st)
    } else {
        match neg_rules_fold(st, rules.drop_last()) {
            Some(s2) => neg_rule_step(s2, rules.last()),
            None => None,
        }
    }
}

proof fn lemma_not_scan_stays(cs: Seq<ClauseV>, b: BindingV, facts: Seq<Triple>, k: int, n: int)
    requires
        0 <= k <= n,
        !(not_scan(cs, b, facts, k) matches Some(false)),
    ensures
        not_scan(cs, b, facts, n) == not_scan(cs, b, facts, k),
    decreases n - k,
{
    if k < n {
        lemma_not_scan_stays(cs, b, facts, k, n - 1);
    }
}

proof fn lemma_not_join_scan_stays(cs: Seq<ClauseV>, b: BindingV, facts: Seq<Triple>, k: int, n: int)
    requires
        0 <= k <= n,
        !(not_join_scan(cs, b, facts, k) matches Some(false)),
    ensures
        not_join_scan(cs, b, facts, n) == not_join_scan(cs, b, facts, k),
    decreases n - k,
{
    if k < n {
        lemma_not_join_scan_stays(cs, b, facts, k, n - 1);
    }
}

proof fn lemma_cands_fold_none(st: (Seq<RecShape>, int), rule: RuleV, cands: Seq<BindingV>, k: int)
    requires
        0 <= k <= cands.len(),
        cands_fold(st, rule, cands.subrange(0, k)) is None,
    ensures
        cands_fold(st, rule, cands) is None,
    decreases cands.len() - k,
{
    if k < cands.len() {
        let c2 = cands.subrange(0, k + 1);
        assert(c2.drop_last() =~= cands.subrange(0, k));
        lemma_cands_fold_none(st, rule, cands, k + 1);
    } else {
        assert(cands.subrange(0, k) =~= cands);
    }
}

proof fn lemma_neg_rules_fold_none(st: (Seq<RecShape>, int), rules: Seq<RuleV>, k: int)
    requires
        0 <= k <= rules.len(),
        neg_rules_fold(st, rules.subrange(0, k)) is None,
    ensures
        neg_rules_fold(st, rules) is None,
    decreases rules.len() - k,
{
    if k < rules.len() {
        let r2 = rules.subrange(0, k + 1);
        assert(r2.drop_last() =~= rules.subrange(0, k));
        lemma_neg_rules_fold_none(st, rules, k + 1);
    } else {
        assert(rules.subrange(0, k) =~= rules);
    }
}

/// The shapes of the facts a recursive evaluation adds: the new triples
/// `res[kl..]`, with transaction counts following `nb`.
pub open spec fn loaded_shapes(res: Seq<Triple>, kl: int, nb: int) -> Seq<RecShape> {
    Seq::new((res.len() - kl) as nat, |j: int| (res[kl + j], nb + j + 1, true))
}

/// The positive rules of a stratum: their recursive evaluation over the net
/// view, the new facts loaded with their own transaction counts, and the
/// counter raised to the highest count.
pub open spec fn pos_step(
    st: (Seq<RecShape>, int),
    subgroups: Seq<(Seq<char>, Seq<RuleV>)>,
    sp: Seq<Seq<char>>,
    max: nat,
) -> Outcome<(Seq<RecShape>, int)> {
    let bt = shape_net(st.0);
    match fixpoint(rules_of(subgroups, sp), keep_last(bt), bt.len() as int, max, max) {
        Outcome::Done(res) => {
            let ss = st.0 + loaded_shapes(res, keep_last(bt).len() as int, bt.len() as int);
            Outcome::Done((ss, shape_max(ss, st.1)))
        },
        Outcome::Failed(m) => Outcome::Failed(m),
        Outcome::Panic => Outcome::Panic,
    }
}

/// Whether a rule has a `not` or `not-join` clause.
pub open spec fn has_negation(r: RuleV) -> bool {
    exists|c: int| 0 <= c < r.body.len() && is_negation(#[trigger] r.body[c])
}

/// The rules without negations, in order.
pub open spec fn pos_of(rs: Seq<RuleV>) -> Seq<RuleV>
    decreases rs.len(),
{
    if rs.len() == 0 {
        seq![]
    } else if has_negation(rs.last()) {
        pos_of(rs.drop_last())
    } else {
        pos_of(rs.drop_last()).push(rs.last())
    }
}

/// The rules with negations, in order.
pub open spec fn neg_of(rs: Seq<RuleV>) -> Seq<RuleV>
    decreases rs.len(),
{
    if rs.len() == 0 {
        seq![]
    } else if has_negation(rs.last()) {
        neg_of(rs.drop_last()).push(rs.last())
    } else {
        neg_of(rs.drop_last())
    }
}

/// A registry of the rules without negations of the predicates, in turn.
pub open spec fn pos_registry(groups: Seq<(Seq<char>, Seq<RuleV>)>, sp: Seq<Seq<char>>) -> Seq<(Seq<char>, Seq<RuleV>)>
    decreases sp.len(),
{
    if sp.len() == 0 {
        seq![]
    } else {
        with_rules(pos_registry(groups, sp.drop_last()), sp.last(), pos_of(rules_for(groups, sp.last())))
    }
}

/// The number of rules without negations of the predicates.
pub open spec fn pos_count(groups: Seq<(Seq<char>, Seq<RuleV>)>, sp: Seq<Seq<char>>) -> nat
    decreases sp.len(),
{
    if sp.len() == 0 {
        0
    } else {
        pos_count(groups, sp.drop_last()) + pos_of(rules_for(groups, sp.last())).len()
    }
}

/// The rules with negations of the predicates, in turn.
pub open spec fn neg_rules_of(groups: Seq<(Seq<char>, Seq<RuleV>)>, sp: Seq<Seq<char>>) -> Seq<RuleV>
    decreases sp.len(),
{
    if sp.len() == 0 {
        seq![]
    } else {
        neg_rules_of(groups, sp.drop_last()) + neg_of(rules_for(groups, sp.last()))
    }
}

/// One stratum: its rules without negations evaluated recursively (when it
/// has any), then its rules with negations in turn.
pub open spec fn stratum_step(
    st: (Seq<RecShape>, int),
    groups: Seq<(Seq<char>, Seq<RuleV>)>,
    sp: Seq<Seq<char>>,
    max: nat,
) -> Outcome<(Seq<RecShape>, int)> {
    if sp.len() == 0 {
        Outcome::Done(st)
    } else {
        let after = if pos_count(groups, sp) > 0 {
            pos_step(st, pos_registry(groups, sp), sp, max)
        } else {
            Outcome::Done(st)
        };
        match after {
            Outcome::Done(s2) => match neg_rules_fold(s2, neg_rules_of(groups, sp)) {
                Some(s3) => Outcome::Done(s3),
                None => Outcome::Panic,
            },
            Outcome::Failed(m) => Outcome::Failed(m),
            Outcome::Panic => Outcome::Panic,
        }
    }
}

/// The stratum of a predicate under the strata `st` (0 when it has no rules).
pub open spec fn pred_stratum(groups: Seq<(Seq<char>, Seq<RuleV>)>, st: Seq<int>, p: Seq<char>) -> int {
    match group_index(groups, p) {
        Some(i) => st[i],
        None => 0,
    }
}

/// The predicates of `cl` in stratum `s`, in order.
pub open spec fn stratum_members(groups: Seq<(Seq<char>, Seq<RuleV>)>, st: Seq<int>, cl: Seq<Seq<char>>, s: int) -> Seq<
    Seq<char>,
>
    decreases cl.len(),
{
    if cl.len() == 0 {
        seq![]
    } else if pred_stratum(groups, st, cl.last()) == s {
        stratum_members(groups, st, cl.drop_last(), s).push(cl.last())
    } else {
        stratum_members(groups, st, cl.drop_last(), s)
    }
}

/// The highest stratum among the predicates of `cl` (0 when there are none).
pub open spec fn top_stratum(groups: Seq<(Seq<char>, Seq<RuleV>)>, st: Seq<int>, cl: Seq<Seq<char>>) -> int
    decreases cl.len(),
{
    if cl.len() == 0 {
        0
    } else {
        let m = top_stratum(groups, st, cl.drop_last());
        let x = pred_stratum(groups, st, cl.last());
        if x > m {
            x
        } else {
            m
        }
    }
}

/// Strata `0..n` in turn.
pub open spec fn strata_run(
    st0: (Seq<RecShape>, int),
    groups: Seq<(Seq<char>, Seq<RuleV>)>,
    stv: Seq<int>,
    cl: Seq<Seq<char>>,
    n: nat,
    max: nat,
) -> Outcome<(Seq<RecShape>, int)>
    decreases n,
{
    if n == 0 {
        Outcome::Done(st0)
    } else {
        match strata_run(st0, groups, stv, cl, (n - 1) as nat, max) {
            Outcome::Done(s) => stratum_step(s, groups, stratum_members(groups, stv, cl, n - 1), max),
            other => other,
        }
    }
}

/// The least strata: valid, never negative, and at or below every other
/// such assignment.
pub open spec fn least_strata(groups: Seq<(Seq<char>, Seq<RuleV>)>) -> Seq<int> {
    choose|st: Seq<int>|
        strata_valid(groups, st) && strata_nonneg(st) && forall|o: Seq<int>|
            strata_valid(groups, o) && strata_nonneg(o) ==> #[trigger] strata_le(st, o)
}

/// Whether `a` is at or below `b` everywhere.
pub open spec fn strata_le(a: Seq<int>, b: Seq<int>) -> bool {
    forall|j: int| 0 <= j < a.len() ==> a[j] <= #[trigger] b[j]
}

/// The stratified model: starting from the base records and transaction
/// counter, the strata of the requested predicates and those they depend on
/// are evaluated in ascending order (see [`stratum_step`]); the triples of the
/// resulting net-asserted view.
pub open spec fn stratified_model(
    base: Seq<Fact>,
    counter: int,
    groups: Seq<(Seq<char>, Seq<RuleV>)>,
    preds: Seq<Seq<char>>,
    max: nat,
) -> Outcome<Seq<Triple>> {
    let stv = least_strata(groups);
    let cl = pred_closure(groups, preds);
    match strata_run((rec_shapes(base), counter), groups, stv, cl, (top_stratum(groups, stv, cl) + 1) as nat, max) {
        Outcome::Done(st) => Outcome::Done(shape_net(st.0)),
        Outcome::Failed(m) => Outcome::Failed(m),
        Outcome::Panic => Outcome::Panic,
    }
}

proof fn lemma_strata_run_stays(
    st0: (Seq<RecShape>, int),
    groups: Seq<(Seq<char>, Seq<RuleV>)>,
    stv: Seq<int>,
    cl: Seq<Seq<char>>,
    k: nat,
    n: nat,
    max: nat,
)
    requires
        k <= n,
        !(strata_run(st0, groups, stv, cl, k, max) is Done),
    ensures
        strata_run(st0, groups, stv, cl, n, max) == strata_run(st0, groups, stv, cl, k, max),
    decreases n - k,
{
    if k < n {
        lemma_strata_run_stays(st0, groups, stv, cl, k, (n - 1) as nat, max);
    }
}

/// The strata `stratify` finds are the least ones.
proof fn lemma_least_strata(g: Seq<(Seq<char>, Seq<RuleV>)>, strata: Seq<usize>)
    requires
        strata_valid(g, strata.map_values(|x: usize| x as int)),
        forall|st: Seq<int>| strata_valid(g, st) && strata_nonneg(st) ==> #[trigger] strata_below(strata, st),
    ensures
        least_strata(g) == strata.map_values(|x: usize| x as int),
{
    let si = strata.map_values(|x: usize| x as int);
    assert(strata_nonneg(si));
    assert forall|o: Seq<int>| strata_valid(g, o) && strata_nonneg(o) implies #[trigger] strata_le(si, o) by {
        assert(strata_below(strata, o));
    }
    let l = least_strata(g);
    assert(strata_valid(g, l) && strata_nonneg(l) && strata_le(l, si));
    assert(strata_le(si, l));
    assert(l =~= si);
}

/// With distinct predicates, the stratum that `stratum_of` returns is that
/// of the predicate's group.
proof fn lemma_pred_stratum(
    groups: Seq<(Seq<char>, Seq<RuleV>)>,
    names_s: Seq<String>,
    strata: Seq<usize>,
    p: Seq<char>,
    r: usize,
)
    requires
        names_s.map_values(|s: String| s@) == group_names(groups),
        distinct_predicates(groups),
        strata.len() == names_s.len(),
        (forall|i: int| 0 <= i < names_s.len() ==> names_s[i]@ != p) ==> r == 0,
        forall|i: int|
            0 <= i < names_s.len() && #[trigger] names_s[i]@ == p && (forall|j: int| 0 <= j < i ==> names_s[j]@ != p)
                ==> r == strata[i],
    ensures
        r == pred_stratum(groups, strata.map_values(|x: usize| x as int), p),
{
    let names = group_names(groups);
    assert(names.len() == names_s.len()) by {
        assert(names_s.map_values(|s: String| s@).len() == names_s.len());
    }
    assert forall|i: int| 0 <= i < names_s.len() implies names[i] == #[trigger] names_s[i]@ by {
        assert(names_s.map_values(|s: String| s@)[i] == names_s[i]@);
    }
    if exists|i: int| 0 <= i < groups.len() && groups[i].0 == p {
        let i = choose|i: int| 0 <= i < groups.len() && groups[i].0 == p;
        lemma_rules_for_index(groups, i);
        assert(names[i] == p);
        assert(names_s[i]@ == p);
        assert forall|j: int| 0 <= j < i implies names_s[j]@ != p by {
            assert(names[j] == names_s[j]@);
            assert(names[j] == groups[j].0);
            if names[j] == p {
                assert(groups[j].0 == groups[i].0);
            }
        }
        assert(r == strata[i]);
    } else {
        assert forall|i: int| 0 <= i < names_s.len() implies names_s[i]@ != p by {
            assert(names[i] == groups[i].0);
            assert(names[i] == names_s[i]@);
        }
    }
}

proof fn lemma_shape_prefix_same(ss: Seq<RecShape>, x: RecShape, k: int)
    requires
        0 <= k <= ss.len(),
        forall|i: int| 0 <= i < ss.len() ==> #[trigger] shape_kept(ss.push(x), i) == shape_kept(ss, i),
    ensures
        shape_net_prefix(ss.push(x), k) == shape_net_prefix(ss, k),
    decreases k,
{
    if k > 0 {
        lemma_shape_prefix_same(ss, x, k - 1);
        assert(ss.push(x)[k - 1] == ss[k - 1]);
        assert(shape_kept(ss.push(x), k - 1) == shape_kept(ss, k - 1));
    }
}

/// Appending an assertion of a triple that no record has adds it last.
proof fn lemma_shape_push_new(ss: Seq<RecShape>, x: RecShape)
    requires
        x.2,
        forall|j: int| 0 <= j < ss.len() ==> (#[trigger] ss[j]).0 != x.0,
    ensures
        shape_net(ss.push(x)) == shape_net(ss).push(x.0),
{
    let gs = ss.push(x);
    let n = ss.len() as int;
    assert forall|i: int| 0 <= i < n implies #[trigger] shape_kept(gs, i) == shape_kept(ss, i) by {
        assert(gs[i] == ss[i]);
        if shape_kept(ss, i) {
            assert forall|j: int| #![trigger gs[j]] 0 <= j < gs.len() && gs[j].0 == gs[i].0 implies gs[j].1 <= gs[i].1 by {
                if j < n {
                    assert(gs[j] == ss[j]);
                } else {
                    assert(gs[j] == x);
                    assert(ss[i].0 != x.0);
                }
            }
        }
        if shape_kept(gs, i) {
            assert forall|j: int| #![trigger ss[j]] 0 <= j < ss.len() && ss[j].0 == ss[i].0 implies ss[j].1 <= ss[i].1 by {
                assert(gs[j] == ss[j]);
            }
        }
    }
    assert forall|j: int| #![trigger gs[j]] 0 <= j < gs.len() && gs[j].0 == gs[n].0 implies gs[j].1 <= gs[n].1 by {
        if j < n {
            assert(gs[j] == ss[j]);
        }
    }
    assert(shape_kept(gs, n));
    lemma_shape_prefix_same(ss, x, n);
}

proof fn lemma_shape_max_same_upto(ss: Seq<RecShape>, t: Triple, k: int) -> (j: int)
    requires
        0 <= k <= ss.len(),
    ensures
        (exists|m: int| 0 <= m < k && (#[trigger] ss[m]).0 == t) ==> 0 <= j < k && ss[j].0 == t && forall|m: int|
            0 <= m < k && (#[trigger] ss[m]).0 == t ==> ss[m].1 <= ss[j].1,
    decreases k,
{
    if k == 0 {
        -1
    } else {
        let j0 = lemma_shape_max_same_upto(ss, t, k - 1);
        let earlier = exists|m: int| 0 <= m < k - 1 && (#[trigger] ss[m]).0 == t;
        if ss[k - 1].0 == t && (!earlier || ss[k - 1].1 >= ss[j0].1) {
            k - 1
        } else {
            if ss[k - 1].0 != t && (exists|m: int| 0 <= m < k && (#[trigger] ss[m]).0 == t) {
                let m = choose|m: int| 0 <= m < k && (#[trigger] ss[m]).0 == t;
                assert(m < k - 1);
            }
            j0
        }
    }
}

proof fn lemma_shape_prefix_contains(ss: Seq<RecShape>, k: int, i: int)
    requires
        0 <= i < k <= ss.len(),
        shape_kept(ss, i),
    ensures
        shape_net_prefix(ss, k).contains(ss[i].0),
    decreases k,
{
    if i == k - 1 {
        assert(shape_net_prefix(ss, k).last() == ss[i].0);
    } else {
        lemma_shape_prefix_contains(ss, k - 1, i);
        let pr = shape_net_prefix(ss, k - 1);
        let w = choose|w: int| 0 <= w < pr.len() && #[trigger] pr[w] == ss[i].0;
        if shape_kept(ss, k - 1) {
            assert(shape_net_prefix(ss, k)[w] == ss[i].0);
        }
    }
}

/// When every record asserts, the triple of each is in the net view.
proof fn lemma_shape_visible(ss: Seq<RecShape>, i: int)
    requires
        0 <= i < ss.len(),
        forall|j: int| 0 <= j < ss.len() ==> (#[trigger] ss[j]).2,
    ensures
        shape_net(ss).contains(ss[i].0),
{
    let t = ss[i].0;
    let j = lemma_shape_max_same_upto(ss, t, ss.len() as int);
    assert(ss[i].0 == t);
    assert forall|m: int| #![trigger ss[m]] 0 <= m < ss.len() && ss[m].0 == ss[j].0 implies ss[m].1 <= ss[j].1 by {}
    assert(shape_kept(ss, j));
    lemma_shape_prefix_contains(ss, ss.len() as int, j);
}

/// The new triples of a successful fixed point, in order, are its triples
/// after the starting ones.
proof fn lemma_fresh_delta_extra(bt: Seq<Triple>, res: Seq<Triple>, k: int)
    requires
        res.len() >= keep_last(bt).len(),
        res.subrange(0, keep_last(bt).len() as int) == keep_last(bt),
        res.subrange(keep_last(bt).len() as int, res.len() as int).no_duplicates(),
        forall|j: int| keep_last(bt).len() <= j < res.len() ==> !keep_last(bt).contains(#[trigger] res[j]),
        0 <= k <= res.len(),
    ensures
        fresh_delta(bt, res.subrange(0, k)) == res.subrange(
            keep_last(bt).len() as int,
            if k > keep_last(bt).len() {
                k
            } else {
                keep_last(bt).len() as int
            },
        ),
    decreases k,
{
    let kl = keep_last(bt).len() as int;
    if k == 0 {
        assert(res.subrange(0, 0) =~= Seq::<Triple>::empty());
        assert(res.subrange(kl, kl) =~= Seq::<Triple>::empty());
    } else {
        lemma_fresh_delta_extra(bt, res, k - 1);
        let r2 = res.subrange(0, k);
        assert(r2.drop_last() =~= res.subrange(0, k - 1));
        assert(r2.last() == res[k - 1]);
        let t = res[k - 1];
        lemma_keep_last_contains(bt, t);
        let d = fresh_delta(bt, res.subrange(0, k - 1));
        if k - 1 < kl {
            assert(res.subrange(0, kl)[k - 1] == t);
            assert(keep_last(bt).contains(t));
        } else {
            assert(!bt.contains(t));
            assert(!d.contains(t)) by {
                if d.contains(t) {
                    let w = choose|w: int| 0 <= w < d.len() && d[w] == t;
                    let e = res.subrange(kl, res.len() as int);
                    assert(d[w] == res[kl + w]);
                    assert(e[w] == e[k - 1 - kl]);
                }
            }
            assert(res.subrange(kl, k) =~= res.subrange(kl, k - 1).push(t));
        }
    }
}

/// With no negated clause, every strata assignment of zeros is the least.
proof fn lemma_zero_strata(groups: Seq<(Seq<char>, Seq<RuleV>)>)
    requires
        negation_free(groups),
    ensures
        least_strata(groups) == Seq::new(groups.len(), |i: int| 0int),
{
    let z = Seq::new(groups.len(), |i: int| 0int);
    assert forall|f: int, t: int, neg: bool| #[trigger] depends_on(groups, f, t, neg) implies z[f] >= z[t] + (if neg {
        1int
    } else {
        0int
    }) by {
        let (r, c) = choose|r: int, c: int| #[trigger] dep_via(groups, f, r, c, t, neg);
        if neg {
            assert(depends_on(groups, f, t, true));
        }
    }
    assert(strata_valid(groups, z));
    assert(strata_nonneg(z));
    assert forall|o: Seq<int>| strata_valid(groups, o) && strata_nonneg(o) implies #[trigger] strata_le(z, o) by {}
    let l = least_strata(groups);
    assert(strata_le(l, z));
    assert(strata_le(z, l));
    assert(l =~= z);
}

proof fn lemma_zero_members(groups: Seq<(Seq<char>, Seq<RuleV>)>, cl: Seq<Seq<char>>)
    ensures
        stratum_members(groups, Seq::new(groups.len(), |i: int| 0int), cl, 0) == cl,
        top_stratum(groups, Seq::new(groups.len(), |i: int| 0int), cl) == 0,
    decreases cl.len(),
{
    let z = Seq::new(groups.len(), |i: int| 0int);
    if cl.len() > 0 {
        lemma_zero_members(groups, cl.drop_last());
        match group_index(groups, cl.last()) {
            Some(i) => {
                assert(0 <= i < groups.len());
                assert(z[i] == 0);
            },
            None => {},
        }
        assert(cl.drop_last().push(cl.last()) =~= cl);
    }
}

proof fn lemma_pos_of_all(rs: Seq<RuleV>)
    requires
        forall|i: int| 0 <= i < rs.len() ==> !has_negation(#[trigger] rs[i]),
    ensures
        pos_of(rs) == rs,
        neg_of(rs) == Seq::<RuleV>::empty(),
    decreases rs.len(),
{
    if rs.len() > 0 {
        lemma_pos_of_all(rs.drop_last());
        assert(!has_negation(rs[rs.len() - 1]));
        assert(rs.drop_last().push(rs.last()) =~= rs);
    }
}

proof fn lemma_group_rules_positive(groups: Seq<(Seq<char>, Seq<RuleV>)>, p: Seq<char>)
    requires
        no_negated_clauses(groups),
    ensures
        pos_of(rules_for(groups, p)) == rules_for(groups, p),
        neg_of(rules_for(groups, p)) == Seq::<RuleV>::empty(),
{
    let rs = rules_for(groups, p);
    assert forall|i: int| 0 <= i < rs.len() implies !has_negation(#[trigger] rs[i]) by {
        lemma_rules_for_member(groups, p, i);
        let (g, k) = choose|g: int, k: int| 0 <= g < groups.len() && 0 <= k < groups[g].1.len() && #[trigger] groups[g].1[k]
            == rs[i];
        if has_negation(rs[i]) {
            let c = choose|c: int| 0 <= c < rs[i].body.len() && is_negation(#[trigger] rs[i].body[c]);
            assert(groups[g].1[k].body[c] == rs[i].body[c]);
        }
    }
    lemma_pos_of_all(rs);
}

proof fn lemma_registry_positive(groups: Seq<(Seq<char>, Seq<RuleV>)>, sp: Seq<Seq<char>>)
    requires
        no_negated_clauses(groups),
    ensures
        pos_registry(groups, sp) == registry_of(groups, sp),
        pos_count(groups, sp) == rules_of(groups, sp).len(),
        neg_rules_of(groups, sp) == Seq::<RuleV>::empty(),
    decreases sp.len(),
{
    if sp.len() > 0 {
        lemma_registry_positive(groups, sp.drop_last());
        lemma_group_rules_positive(groups, sp.last());
        assert(neg_rules_of(groups, sp.drop_last()) + neg_of(rules_for(groups, sp.last())) =~= Seq::<RuleV>::empty());
    }
}

/// Loading the new triples of a recursive evaluation onto records that all
/// assert appends them to the net view.
proof fn lemma_load_shapes(ss: Seq<RecShape>, res: Seq<Triple>, nb: int, k: int)
    requires
        forall|j: int| 0 <= j < ss.len() ==> (#[trigger] ss[j]).2,
        res.len() >= keep_last(shape_net(ss)).len(),
        res.subrange(0, keep_last(shape_net(ss)).len() as int) == keep_last(shape_net(ss)),
        res.subrange(keep_last(shape_net(ss)).len() as int, res.len() as int).no_duplicates(),
        forall|j: int| keep_last(shape_net(ss)).len() <= j < res.len() ==> !keep_last(shape_net(ss)).contains(#[trigger] res[j]),
        0 <= k <= res.len() - keep_last(shape_net(ss)).len(),
    ensures
        shape_net(ss + loaded_shapes(res, keep_last(shape_net(ss)).len() as int, nb).subrange(0, k)) == shape_net(ss)
            + res.subrange(keep_last(shape_net(ss)).len() as int, keep_last(shape_net(ss)).len() + k),
    decreases k,
{
    let bt = shape_net(ss);
    let kl = keep_last(bt).len() as int;
    let ls = loaded_shapes(res, kl, nb);
    if k == 0 {
        assert(ss + ls.subrange(0, 0) =~= ss);
        assert(bt + res.subrange(kl, kl) =~= bt);
    } else {
        lemma_load_shapes(ss, res, nb, k - 1);
        let prev = ss + ls.subrange(0, k - 1);
        let x = ls[k - 1];
        assert(x == (res[kl + k - 1], nb + k, true));
        let t = res[kl + k - 1];
        lemma_keep_last_contains(bt, t);
        assert forall|j: int| 0 <= j < prev.len() implies (#[trigger] prev[j]).0 != x.0 by {
            if j < ss.len() {
                assert(prev[j] == ss[j]);
                if ss[j].0 == t {
                    lemma_shape_visible(ss, j);
                }
            } else {
                assert(prev[j] == ls[j - ss.len()]);
                let e = res.subrange(kl, res.len() as int);
                assert(ls[j - ss.len()].0 == e[j - ss.len()]);
                assert(e[k - 1] == t);
            }
        }
        lemma_shape_push_new(prev, x);
        assert(ss + ls.subrange(0, k) =~= prev.push(x));
        assert(res.subrange(kl, kl + k) =~= res.subrange(kl, kl + k - 1).push(t));
    }
}

/// Whether the stratified model and the model without negations agree.
pub open spec fn models_agree(
    base: Seq<Fact>,
    counter: int,
    groups: Seq<(Seq<char>, Seq<RuleV>)>,
    preds: Seq<Seq<char>>,
    max: nat,
) -> bool {
    stratified_model(base, counter, groups, preds, max) == positive_model(base, groups, preds, max)
}

/// Without negated clauses, and over records that all assert, the stratified
/// model is the model of recursive evaluation in a single stratum.
pub proof fn lemma_models_agree(
    base: Seq<Fact>,
    counter: int,
    groups: Seq<(Seq<char>, Seq<RuleV>)>,
    preds: Seq<Seq<char>>,
    max: nat,
)
    requires
        no_negated_clauses(groups),
        all_assertions(base),
    ensures
        models_agree(base, counter, groups, preds, max),
{
    lemma_no_negated_free(groups);
    lemma_zero_strata(groups);
    let z = Seq::new(groups.len(), |i: int| 0int);
    let cl = pred_closure(groups, preds);
    lemma_zero_members(groups, cl);
    lemma_registry_positive(groups, cl);
    let ss = rec_shapes(base);
    let st0 = (ss, counter);
    lemma_shape_net(base);
    let bt = fact_triples(net_asserted(base));
    assert(strata_run(st0, groups, z, cl, 0, max) == Outcome::<(Seq<RecShape>, int)>::Done(st0));
    assert(stratum_members(groups, z, cl, 0) == cl);
    assert(strata_run(st0, groups, z, cl, 1, max) == stratum_step(st0, groups, cl, max));
    assert(neg_rules_of(groups, cl) == Seq::<RuleV>::empty());
    if cl.len() > 0 && rules_of(groups, cl).len() > 0 {
        let rs = rules_of(registry_of(groups, cl), cl);
        if let Outcome::Done(res) = fixpoint(rs, keep_last(bt), bt.len() as int, max, max) {
            lemma_fixpoint_extends(rs, keep_last(bt), bt.len() as int, max, max);
            let kl = keep_last(bt).len() as int;
            assert forall|j: int| 0 <= j < ss.len() implies (#[trigger] ss[j]).2 by {
                assert(base[j].asserted);
            }
            lemma_load_shapes(ss, res, bt.len() as int, res.len() - kl);
            let ls = loaded_shapes(res, kl, bt.len() as int);
            assert(ls.subrange(0, res.len() - kl) =~= ls);
            lemma_fresh_delta_extra(bt, res, res.len() as int);
            assert(res.subrange(0, res.len() as int) =~= res);
        }
    }
}

/// Without negated clauses no rule depends on a predicate through a negation.
proof fn lemma_no_negated_free(groups: Seq<(Seq<char>, Seq<RuleV>)>)
    requires
        no_negated_clauses(groups),
    ensures
        negation_free(groups),
{
    assert forall|f: int, t: int| !#[trigger] depends_on(groups, f, t, true) by {
        if depends_on(groups, f, t, true) {
            let (r, c) = choose|r: int, c: int| #[trigger] dep_via(groups, f, r, c, t, true);
            assert(is_negation(groups[f].1[r].body[c]));
        }
    }
}

/// A successful fixed point holds the triples it started from, then new
/// triples, each once.
proof fn lemma_fixpoint_extends(rules: Seq<RuleV>, known: Seq<Triple>, count: int, fuel: nat, max: nat)
    ensures
        fixpoint(rules, known, count, fuel, max) matches Outcome::Done(ts) ==> ts.len() >= known.len()
            && ts.subrange(0, known.len() as int) == known && ts.subrange(known.len() as int, ts.len() as int).no_duplicates()
            && forall|j: int| known.len() <= j < ts.len() ==> !known.contains(#[trigger] ts[j]),
    decreases fuel,
{
    if fuel > 0 {
        if let Outcome::Done(new) = derive_all(rules, known) {
            let d = fresh_delta(known, new);
            if d.len() > 0 && count + d.len() <= u64::MAX {
                lemma_fixpoint_extends(rules, known + d, count + d.len(), (fuel - 1) as nat, max);
                lemma_fresh_delta(known, new);
                if let Outcome::Done(ts) = fixpoint(rules, known, count, fuel, max) {
                    let k2 = known + d;
                    assert(ts.subrange(0, known.len() as int) =~= k2.subrange(0, known.len() as int));
                    assert(k2.subrange(0, known.len() as int) =~= known);
                    let extra = ts.subrange(known.len() as int, ts.len() as int);
                    assert forall|q: int| 0 <= q < k2.len() implies ts[q] == #[trigger] k2[q] by {
                        assert(ts.subrange(0, k2.len() as int)[q] == ts[q]);
                    }
                    assert forall|j: int| known.len() <= j < ts.len() implies !known.contains(#[trigger] ts[j]) by {
                        if j < k2.len() {
                            assert(ts[j] == k2[j]);
                            assert(k2[j] == d[j - known.len()]);
                            assert(d.contains(d[j - known.len()]));
                        } else {
                            if known.contains(ts[j]) {
                                let w = choose|w: int| 0 <= w < known.len() && known[w] == ts[j];
                                assert(k2[w] == ts[j]);
                            }
                        }
                    }
                    assert forall|a: int, b: int| 0 <= a < extra.len() && 0 <= b < extra.len() && a != b implies extra[a]
                        != extra[b] by {
                        let ia = a + known.len();
                        let ib = b + known.len();
                        if ia < k2.len() && ib < k2.len() {
                            assert(k2[ia] == d[a] && k2[ib] == d[b]);
                            assert(ts[ia] == d[a] && ts[ib] == d[b]);
                        } else if ia < k2.len() {
                            assert(ts[ia] == k2[ia]);
                            if extra[a] == extra[b] {
                                assert(k2.contains(ts[ib]));
                            }
                        } else if ib < k2.len() {
                            assert(ts[ib] == k2[ib]);
                            if extra[a] == extra[b] {
                                assert(k2.contains(ts[ia]));
                            }
                        } else {
                            let e2 = ts.subrange(k2.len() as int, ts.len() as int);
                            assert(extra[a] == e2[ia - k2.len()] && extra[b] == e2[ib - k2.len()]);
                        }
                    }
                }
            }
        }
    }
}

/// Whether `base` is a prefix of `fs` and every later record is an assertion.
pub open spec fn extends_with_assertions(base: Seq<Fact>, fs: Seq<Fact>) -> bool {
    &&& base.len() <= fs.len()
    &&& fs.subrange(0, base.len() as int) == base
    &&& forall|j: int| base.len() <= j < fs.len() ==> (#[trigger] fs[j]).asserted
}

impl StratifiedEvaluator {
    /// The records of the base storage.
    pub closed spec fn base(&self) -> Seq<Fact> {
        self.storage.records()
    }

    /// The registered rules, by predicate.
    pub closed spec fn rule_groups(&self) -> Seq<(Seq<char>, Seq<RuleV>)> {
        self.rules.groups()
    }

    /// The iteration limit of each recursive evaluation.
    pub closed spec fn limit(&self) -> nat {
        self.max_iterations as nat
    }

    /// The transaction counter of the base storage.
    pub closed spec fn counter(&self) -> u64 {
        self.storage.counter()
    }

    pub fn new(storage: FactStorage, rules: RuleRegistry, max_iterations: usize) -> (r: Self)
        ensures
            r.base() == storage.records(),
            r.rule_groups() == rules.groups(),
            r.limit() == max_iterations,
            r.counter() == storage.counter(),
    {
        StratifiedEvaluator { storage, rules, max_iterations }
    }

    /// The requested predicates followed by the predicates with rules that
    /// they depend on (see [`pred_closure`]); `names` are the predicates of
    /// the registry.
    fn relevant_predicates(&self, predicates: &[String], names: &Vec<String>) -> (all_preds: Vec<String>)
        requires
            names@.map_values(|s: String| s@) == group_names(self.rule_groups()),
        ensures
            names_of(all_preds@) == pred_closure(self.rule_groups(), names_of(predicates@)),
    {
        let ghost groups = self.rule_groups();
        let ghost nm = group_names(groups);
        let ghost init = names_of(predicates@);
        let ghost fuel: nat = init.len() + groups.len() + 1;
        let mut all_preds: Vec<String> = Vec::new();
        let mut q: usize = 0;
        while q < predicates.len()
            invariant
                q <= predicates.len(),
                init == names_of(predicates@),
                names_of(all_preds@) == init.subrange(0, q as int),
            decreases predicates.len() - q,
        {
            let ghost before = names_of(all_preds@);
            let c = predicates[q].clone();
            all_preds.push(c);
            assert(names_of(all_preds@) =~= before.push(c@));
            assert(init.subrange(0, q + 1) =~= init.subrange(0, q as int).push(init[q as int]));
            q = q + 1;
        }
        assert(init.subrange(0, predicates.len() as int) =~= init);
        let mut i: usize = 0;
        let ghost registry_names = names@.map_values(|s: String| s@).to_set();
        let ghost start = all_preds.len();
        proof {
            names@.map_values(|s: String| s@).lemma_cardinality_of_set();
            assert(nm.len() == groups.len());
        }
        while i < all_preds.len()
            invariant
                start <= all_preds.len(),
                start == init.len(),
                i <= all_preds.len(),
                nm == group_names(groups),
                groups == self.rule_groups(),
                nm.len() == names.len(),
                names@.map_values(|s: String| s@) == nm,
                fuel == init.len() + groups.len() + 1,
                closure_from(groups, names_of(all_preds@), i as nat, (fuel - i) as nat) == pred_closure(groups, init),
                registry_names == names@.map_values(|s: String| s@).to_set(),
                registry_names.len() <= names.len(),
                all_preds@.subrange(start as int, all_preds.len() as int).map_values(|s: String| s@).no_duplicates(),
                all_preds@.subrange(start as int, all_preds.len() as int).map_values(|s: String| s@).to_set().subset_of(
                    registry_names,
                ),
                all_preds.len() <= start + names.len(),
            decreases start + names.len() - i,
        {
            let ghost li = names_of(all_preds@);
            let rules = self.rules.get_rules(all_preds[i].as_str());
            let ghost rv = rules_view(rules@);
            assert(rv == rules_for(groups, li[i as int]));
            assert(rv.subrange(0, 0) =~= Seq::<RuleV>::empty());
            assert(add_deps(li, rules_deps(rv.subrange(0, 0)), nm) == li);
            let mut ri: usize = 0;
            while ri < rules.len()
                invariant
                    ri <= rules.len(),
                    rv == rules_view(rules@),
                    names_of(all_preds@) == add_deps(li, rules_deps(rv.subrange(0, ri as int)), nm),
                    li.len() <= all_preds.len(),
                    start <= all_preds.len(),
                    nm == group_names(groups),
                    names@.map_values(|s: String| s@) == nm,
                    registry_names == names@.map_values(|s: String| s@).to_set(),
                    registry_names.len() <= names.len(),
                    all_preds@.subrange(start as int, all_preds.len() as int).map_values(|s: String| s@).no_duplicates(),
                    all_preds@.subrange(start as int, all_preds.len() as int).map_values(|s: String| s@).to_set().subset_of(
                        registry_names,
                    ),
                    all_preds.len() <= start + names.len(),
                decreases rules.len() - ri,
            {
                let body = &rules[ri].body;
                let ghost bv = clause_seq_view(body@);
                let ghost pre = rules_deps(rv.subrange(0, ri as int));
                assert(rv[ri as int].body == bv);
                assert(pre + cvs_preds(bv.subrange(0, 0)) =~= pre);
                let mut ci: usize = 0;
                while ci < body.len()
                    invariant
                        ci <= body.len(),
                        bv == clause_seq_view(body@),
                        names_of(all_preds@) == add_deps(li, pre + cvs_preds(bv.subrange(0, ci as int)), nm),
                        li.len() <= all_preds.len(),
                        start <= all_preds.len(),
                        nm == group_names(groups),
                        names@.map_values(|s: String| s@) == nm,
                        registry_names == names@.map_values(|s: String| s@).to_set(),
                        registry_names.len() <= names.len(),
                        all_preds@.subrange(start as int, all_preds.len() as int).map_values(|s: String| s@).no_duplicates(),
                        all_preds@.subrange(start as int, all_preds.len() as int).map_values(
                            |s: String| s@,
                        ).to_set().subset_of(registry_names),
                        all_preds.len() <= start + names.len(),
                    decreases body.len() - ci,
                {
                    let deps = body[ci].rule_invocations();
                    let ghost dv = strs_view(deps@);
                    let ghost pre2 = pre + cvs_preds(bv.subrange(0, ci as int));
                    proof {
                        lemma_clause_preds_view(body@[ci as int]);
                        assert(bv[ci as int] == clause_view(body@[ci as int]));
                        assert(pre2 + dv.subrange(0, 0) =~= pre2);
                    }
                    let mut di: usize = 0;
                    while di < deps.len()
                        invariant
                            di <= deps.len(),
                            dv == strs_view(deps@),
                            names_of(all_preds@) == add_deps(li, pre2 + dv.subrange(0, di as int), nm),
                            li.len() <= all_preds.len(),
                            start <= all_preds.len(),
                            nm == group_names(groups),
                            names@.map_values(|s: String| s@) == nm,
                            registry_names == names@.map_values(|s: String| s@).to_set(),
                            registry_names.len() <= names.len(),
                            all_preds@.subrange(start as int, all_preds.len() as int).map_values(
                                |s: String| s@,
                            ).no_duplicates(),
                            all_preds@.subrange(start as int, all_preds.len() as int).map_values(
                                |s: String| s@,
                            ).to_set().subset_of(registry_names),
                            all_preds.len() <= start + names.len(),
                        decreases deps.len() - di,
                    {
                        let dep = deps[di];
                        let ghost before = names_of(all_preds@);
                        proof {
                            let ext = pre2 + dv.subrange(0, di + 1);
                            assert(ext.drop_last() =~= pre2 + dv.subrange(0, di as int));
                            assert(ext.last() == dep@);
                        }
                        // Predicates without rules derive nothing: only those with rules are followed.
                        let present = contains_name(&all_preds, dep);
                        proof {
                            assert(present == before.contains(dep@)) by {
                                if present {
                                    let w = choose|w: int| 0 <= w < all_preds.len() && all_preds@[w]@ == dep@;
                                    assert(before[w] == dep@);
                                }
                                if before.contains(dep@) {
                                    let w = choose|w: int| 0 <= w < before.len() && before[w] == dep@;
                                    assert(all_preds@[w]@ == dep@);
                                }
                            }
                        }
                        if !present {
                            let found = index_of(names, dep);
                            proof {
                                assert(found is Some == nm.contains(dep@)) by {
                                    if let Some(x) = found {
                                        assert(nm[x as int] == names@[x as int]@);
                                    }
                                    if nm.contains(dep@) {
                                        let w = choose|w: int| 0 <= w < nm.len() && nm[w] == dep@;
                                        assert(names@[w]@ == nm[w]);
                                    }
                                }
                            }
                            if let Some(x) = found {
                                let ghost old_tail = all_preds@.subrange(start as int, all_preds.len() as int).map_values(
                                    |s: String| s@,
                                );
                                all_preds.push(to_owned_string(dep));
                                proof {
                                    assert(names_of(all_preds@) =~= before.push(dep@));
                                    let tail = all_preds@.subrange(start as int, all_preds.len() as int).map_values(
                                        |s: String| s@,
                                    );
                                    assert(tail =~= old_tail.push(dep@));
                                    assert(!old_tail.contains(dep@)) by {
                                        if old_tail.contains(dep@) {
                                            let j = choose|j: int| 0 <= j < old_tail.len() && old_tail[j] == dep@;
                                            assert(all_preds@[start + j]@ == dep@);
                                            assert(before[start + j] == dep@);
                                        }
                                    }
                                    assert(names@.map_values(|s: String| s@)[x as int] == dep@);
                                    assert(registry_names.contains(dep@));
                                    old_tail.lemma_push_to_set_commute(dep@);
                                    assert(tail.no_duplicates()) by {
                                        assert forall|a: int, b: int| 0 <= a < tail.len() && 0 <= b < tail.len() && a
                                            != b implies tail[a] != tail[b] by {
                                            if a < old_tail.len() && b < old_tail.len() {
                                                assert(tail[a] == old_tail[a] && tail[b] == old_tail[b]);
                                            } else if a == old_tail.len() {
                                                assert(tail[b] == old_tail[b]);
                                            } else {
                                                assert(tail[a] == old_tail[a]);
                                            }
                                        }
                                    }
                                    tail.unique_seq_to_set();
                                    vstd::set_lib::lemma_len_subset(tail.to_set(), registry_names);
                                }
                            }
                        }
                        di = di + 1;
                    }
                    proof {
                        assert(dv.subrange(0, deps.len() as int) =~= dv);
                        let c2 = bv.subrange(0, ci + 1);
                        assert(c2.drop_last() =~= bv.subrange(0, ci as int));
                        assert(c2.last() == bv[ci as int]);
                        assert(pre + cvs_preds(c2) =~= pre2 + dv);
                    }
                    ci = ci + 1;
                }
                proof {
                    assert(bv.subrange(0, body.len() as int) =~= bv);
                    let r2 = rv.subrange(0, ri + 1);
                    assert(r2.drop_last() =~= rv.subrange(0, ri as int));
                    assert(r2.last() == rv[ri as int]);
                }
                ri = ri + 1;
            }
            proof {
                assert(rv.subrange(0, rules.len() as int) =~= rv);
                assert(i < fuel);
            }
            i = i + 1;
        }
        all_preds
    }

    /// Splits the rules of a stratum's predicates into a registry of those
    /// without negations (and whether there are any) and the list of those
    /// with negations, in order.
    fn partition_rules(&self, stratum_preds: &Vec<String>) -> (r: (RuleRegistry, bool, Vec<Rule>))
        ensures
            r.0.groups() == pos_registry(self.rule_groups(), names_of(stratum_preds@)),
            r.1 == (pos_count(self.rule_groups(), names_of(stratum_preds@)) > 0),
            rules_view(r.2@) == neg_rules_of(self.rule_groups(), names_of(stratum_preds@)),
            rules_within(r.0.groups(), self.rule_groups()),
            forall|m: int| 0 <= m < r.2.len() ==> is_group_rule(self.rule_groups(), (#[trigger] r.2@[m])@),
    {
        let ghost groups = self.rule_groups();
        let ghost spn = names_of(stratum_preds@);
        let mut sub_registry = RuleRegistry::new();
        let mut has_positive = false;
        let mut mixed_rules: Vec<Rule> = Vec::new();
        let mut p: usize = 0;
        assert(rules_within(sub_registry.groups(), groups));
        assert(spn.subrange(0, 0) =~= Seq::<Seq<char>>::empty());
        assert(rules_view(mixed_rules@) =~= Seq::<RuleV>::empty());
        while p < stratum_preds.len()
            invariant
                p <= stratum_preds.len(),
                groups == self.rule_groups(),
                spn == names_of(stratum_preds@),
                rules_within(sub_registry.groups(), groups),
                forall|m: int| 0 <= m < mixed_rules.len() ==> is_group_rule(groups, (#[trigger] mixed_rules@[m])@),
                sub_registry.groups() == pos_registry(groups, spn.subrange(0, p as int)),
                has_positive == (pos_count(groups, spn.subrange(0, p as int)) > 0),
                rules_view(mixed_rules@) == neg_rules_of(groups, spn.subrange(0, p as int)),
            decreases stratum_preds.len() - p,
        {
            let rules = self.rules.get_rules(stratum_preds[p].as_str());
            let ghost sp_pre = spn.subrange(0, p as int);
            let ghost rv = rules_view(rules@);
            let ghost reg0 = sub_registry.groups();
            let ghost mixed0 = rules_view(mixed_rules@);
            let ghost hp0 = has_positive;
            assert(rv.subrange(0, 0) =~= Seq::<RuleV>::empty());
            assert(mixed0 + neg_of(rv.subrange(0, 0)) =~= mixed0);
            let mut ri: usize = 0;
            while ri < rules.len()
                invariant
                    ri <= rules.len(),
                    p < stratum_preds.len(),
                    groups == self.rule_groups(),
                    rv == rules_view(rules@),
                    rv == rules_for(groups, stratum_preds@[p as int]@),
                    rules_within(sub_registry.groups(), groups),
                    forall|m: int| 0 <= m < mixed_rules.len() ==> is_group_rule(groups, (#[trigger] mixed_rules@[m])@),
                    sub_registry.groups() == with_rules(reg0, stratum_preds@[p as int]@, pos_of(rv.subrange(0, ri as int))),
                    has_positive == (hp0 || pos_of(rv.subrange(0, ri as int)).len() > 0),
                    rules_view(mixed_rules@) == mixed0 + neg_of(rv.subrange(0, ri as int)),
                decreases rules.len() - ri,
            {
                let rule = &rules[ri];
                proof {
                    assert(rules_for(groups, stratum_preds@[p as int]@)[ri as int] == rule@);
                    lemma_rules_for_member(groups, stratum_preds@[p as int]@, ri as int);
                }
                let mut has_not = false;
                let mut ci: usize = 0;
                while ci < rule.body.len()
                    invariant
                        ci <= rule.body.len(),
                        has_not == exists|c: int| 0 <= c < ci && is_negation(#[trigger] rule@.body[c]),
                    decreases rule.body.len() - ci,
                {
                    proof {
                        assert(rule@.body[ci as int] == clause_view(rule.body@[ci as int]));
                    }
                    match &rule.body[ci] {
                        WhereClause::Not(_) => {
                            has_not = true;
                        },
                        WhereClause::NotJoin { .. } => {
                            has_not = true;
                        },
                        _ => {},
                    }
                    proof {
                        if has_not {
                            if !is_negation(rule@.body[ci as int]) {
                                let c = choose|c: int| 0 <= c < ci && is_negation(#[trigger] rule@.body[c]);
                                assert(0 <= c < ci + 1);
                            }
                        } else {
                            assert forall|c: int| 0 <= c < ci + 1 implies !is_negation(#[trigger] rule@.body[c]) by {
                                if c < ci {
                                    assert(!(0 <= c < ci && is_negation(rule@.body[c])));
                                }
                            }
                        }
                    }
                    ci = ci + 1;
                }
                proof {
                    assert(has_not == has_negation(rule@));
                    let r2 = rv.subrange(0, ri + 1);
                    assert(r2.drop_last() =~= rv.subrange(0, ri as int));
                    assert(r2.last() == rule@);
                }
                if has_not {
                    let ghost before = mixed_rules@;
                    mixed_rules.push(rule.clone());
                    proof {
                        assert forall|m: int| 0 <= m < mixed_rules.len() implies is_group_rule(groups, (#[trigger] mixed_rules@[m])@) by {
                            if m < before.len() {
                                assert(mixed_rules@[m] == before[m]);
                            }
                        }
                        assert(rules_view(mixed_rules@) =~= rules_view(before).push(rule@));
                        assert(mixed0 + neg_of(rv.subrange(0, ri + 1)) =~= (mixed0 + neg_of(rv.subrange(0, ri as int))).push(rule@));
                    }
                } else {
                    let ghost before = sub_registry.groups();
                    let copy = rule.clone();
                    let _ = sub_registry.register_rule(to_owned_string(stratum_preds[p].as_str()), copy);
                    proof {
                        lemma_with_rule_within(before, groups, stratum_preds@[p as int]@, rule@);
                        let pr = pos_of(rv.subrange(0, ri + 1));
                        assert(pr.drop_last() =~= pos_of(rv.subrange(0, ri as int)));
                        assert(pr.last() == rule@);
                    }
                    has_positive = true;
                }
                ri = ri + 1;
            }
            proof {
                assert(rv.subrange(0, rules.len() as int) =~= rv);
                let s2 = spn.subrange(0, p + 1);
                assert(s2.drop_last() =~= sp_pre);
                assert(s2.last() == stratum_preds@[p as int]@);
            }
            p = p + 1;
        }
        proof {
            assert(spn.subrange(0, stratum_preds.len() as int) =~= spn);
        }
        (sub_registry, has_positive, mixed_rules)
    }

    /// Evaluates a stratum's rules without negations recursively over the
    /// accumulated facts, loads the new facts and raises the counter (see
    /// [`pos_step`]). `None` when an expression overflows.
    fn apply_positive_rules(
        &self,
        accumulated: &mut FactStorage,
        stratum_preds: &Vec<String>,
        sub_registry: RuleRegistry,
    ) -> (r: Option<Result<(), String>>)
        requires
            rules_within(sub_registry.groups(), self.rule_groups()),
            extends_with_assertions(self.base(), old(accumulated).records()),
            derived_from_heads(self.base(), old(accumulated).records(), self.rule_groups()),
        ensures
            match pos_step(
                (rec_shapes(old(accumulated).records()), old(accumulated).counter() as int),
                sub_registry.groups(),
                names_of(stratum_preds@),
                self.limit(),
            ) {
                Outcome::Done(st) => r matches Some(Ok(())) && rec_shapes(final(accumulated).records()) == st.0
                    && final(accumulated).counter() == st.1,
                Outcome::Failed(m) => r matches Some(Err(x)) && x@ == m,
                Outcome::Panic => r is None,
            },
            r matches Some(Ok(())) ==> extends_with_assertions(self.base(), final(accumulated).records())
                && derived_from_heads(self.base(), final(accumulated).records(), self.rule_groups()),
    {
        let ghost groups = self.rule_groups();
        let ghost sub_groups = sub_registry.groups();
        let ghost pre = accumulated.records();
        let ghost c0 = accumulated.counter() as int;
        let ghost base_triples = fact_triples(net_asserted(accumulated.records()));
        let ghost nb = net_asserted(accumulated.records()).len() as int;
        proof { lemma_shape_net(accumulated.records()); }
        let sub_eval = RecursiveEvaluator::new(accumulated.clone(), sub_registry, self.max_iterations);
        let derived = match sub_eval.evaluate_recursive_rules_checked(stratum_preds.as_slice()) {
            None => return None,
            Some(Err(e)) => return Some(Err(e)),
            Some(Ok(d)) => d,
        };
        let ghost res = recursive_outcome(sub_eval.base(), sub_groups, names_of(stratum_preds@), sub_eval.limit())->Done_0;
        let ghost kl = keep_last(base_triples).len() as int;
        proof {
            let rs = rules_of(sub_groups, names_of(stratum_preds@));
            lemma_fixpoint_attr(rs, keep_last(base_triples), base_triples.len() as int, sub_eval.limit(), sub_eval.limit());
            lemma_keep_last_within(base_triples);
            lemma_fixpoint_extends(rs, keep_last(base_triples), base_triples.len() as int, sub_eval.limit(), sub_eval.limit());
        }
        // Snapshot existing fact keys so we only load truly new (derived) facts
        let existing = accumulated.get_asserted_facts();
        let mut keys: Vec<(EntityId, String, Value)> = Vec::new();
        let mut k: usize = 0;
        while k < existing.len()
            invariant
                k <= existing.len(),
                key_triples(keys@) == fact_triples(existing@.subrange(0, k as int)),
            decreases existing.len() - k,
        {
            let ghost kb = key_triples(keys@);
            keys.push((existing[k].entity, existing[k].attribute.clone(), existing[k].value.clone()));
            assert(key_triples(keys@) =~= kb.push(fact_triple(existing@[k as int])));
            assert(fact_triples(existing@.subrange(0, k + 1)) =~= fact_triples(existing@.subrange(0, k as int)).push(
                fact_triple(existing@[k as int]),
            ));
            k = k + 1;
        }
        assert(existing@.subrange(0, existing@.len() as int) =~= existing@);
        assert(key_triples(keys@) == base_triples);
        let derived_facts = derived.get_asserted_facts();
        proof { lemma_net_asserted_asserted(derived.records(), derived.records().len() as int); }
        assert(fact_triples(derived_facts@) == res);
        let ghost ls = loaded_shapes(res, kl, nb);
        assert(rec_shapes(pre) + ls.subrange(0, 0) =~= rec_shapes(pre));
        let mut k: usize = 0;
        while k < derived_facts.len()
            invariant
                k <= derived_facts.len(),
                extends_with_assertions(self.base(), accumulated.records()),
                derived_from_heads(self.base(), accumulated.records(), groups),
                forall|j: int| 0 <= j < derived_facts.len() ==> (#[trigger] derived_facts@[j]).asserted,
                fact_triples(derived_facts@) == res,
                derived_facts@ == net_asserted(derived.records()),
                new_counts(derived_facts@, pre),
                key_triples(keys@) == base_triples,
                base_triples == fact_triples(net_asserted(pre)),
                nb == net_asserted(pre).len(),
                kl == keep_last(base_triples).len(),
                res.len() >= kl,
                res.subrange(0, kl) == keep_last(base_triples),
                forall|j: int| kl <= j < res.len() ==> !keep_last(base_triples).contains(#[trigger] res[j]),
                ls == loaded_shapes(res, kl, nb),
                accumulated.counter() == c0,
                rules_within(sub_groups, groups),
                forall|j: int| 0 <= j < res.len() ==> keep_last(base_triples).contains(#[trigger] res[j])
                    || some_head_attr(rules_of(sub_groups, names_of(stratum_preds@)), res[j].1),
                rec_shapes(accumulated.records()) == rec_shapes(pre) + ls.subrange(0, if k > kl { k - kl } else { 0 }),
            decreases derived_facts.len() - k,
        {
            let fact = &derived_facts[k];
            let key = (fact.entity, fact.attribute.clone(), fact.value.clone());
            let ghost t = fact_triple(*fact);
            proof {
                assert(res[k as int] == t);
                lemma_keep_last_contains(base_triples, t);
                if k < kl {
                    assert(res.subrange(0, kl)[k as int] == t);
                    assert(keep_last(base_triples)[k as int] == t);
                }
            }
            if !contains_fact(&keys, &key) {
                let ghost before = accumulated.records();
                proof {
                    assert(k >= kl);
                    assert(!keep_last(base_triples).contains(t)) by {
                        if keep_last(base_triples).contains(t) {
                            let w = choose|w: int| 0 <= w < keep_last(base_triples).len() && keep_last(base_triples)[w] == t;
                            assert(base_triples.contains(keep_last(base_triples)[w]));
                        }
                    }
                    let rs = rules_of(sub_groups, names_of(stratum_preds@));
                    assert(some_head_attr(rs, t.1));
                    lemma_rules_of_attr(sub_groups, names_of(stratum_preds@), t.1);
                    lemma_within_attr(sub_groups, groups, t.1);
                    lemma_derived_push(self.base(), before, groups, *fact);
                }
                accumulated.load_fact(fact.clone());
                proof {
                    lemma_extends_push(self.base(), before, *fact);
                    assert(fact.tx_count == nb + (k - kl) + 1);
                    assert(ls[k - kl] == rec_shape(*fact));
                    assert(rec_shapes(accumulated.records()) =~= rec_shapes(before).push(rec_shape(*fact)));
                    assert(ls.subrange(0, k + 1 - kl) =~= ls.subrange(0, k - kl).push(ls[k - kl]));
                }
            } else {
                proof {
                    if k >= kl {
                        assert(!keep_last(base_triples).contains(res[k as int]));
                        assert(false);
                    }
                }
            }
            k = k + 1;
        }
        assert(ls.subrange(0, res.len() - kl) =~= ls);
        proof { lemma_shape_max(accumulated.records(), accumulated.counter() as int); }
        accumulated.restore_tx_counter();
        Some(Ok(()))
    }

    /// Derive all facts for the given predicates, respecting stratification
    /// order. `None` when an expression's evaluation overflows.
    #[verifier::rlimit(40)]
    pub fn evaluate(&self, predicates: &[String]) -> (r: Option<Result<FactStorage, String>>)
        ensures
            r matches Some(Ok(acc)) ==> extends_with_assertions(self.base(), acc.records()) && stratifiable(
                self.rule_groups(),
            ) && derived_from_heads(self.base(), acc.records(), self.rule_groups()),
            !stratifiable(self.rule_groups()) ==> (r matches Some(Err(m)) && stratify_message(m@)),
            stratifiable(self.rule_groups()) ==> match stratified_model(
                self.base(),
                self.counter() as int,
                self.rule_groups(),
                names_of(predicates@),
                self.limit(),
            ) {
                Outcome::Done(ts) => r matches Some(Ok(acc)) && fact_triples(net_asserted(acc.records())) == ts,
                Outcome::Failed(m) => r matches Some(Err(x)) && x@ == m,
                Outcome::Panic => r is None,
            },
            no_negated_clauses(self.rule_groups()) && all_assertions(self.base()) ==> match positive_model(
                self.base(),
                self.rule_groups(),
                names_of(predicates@),
                self.limit(),
            ) {
                Outcome::Done(ts) => r matches Some(Ok(acc)) && fact_triples(net_asserted(acc.records())) == ts,
                Outcome::Failed(m) => r matches Some(Err(x)) && x@ == m,
                Outcome::Panic => r is None,
            },
    {
        let ghost groups = self.rule_groups();
        let ghost cond = no_negated_clauses(groups) && all_assertions(self.base());
        proof {
            if cond {
                lemma_no_negated_free(groups);
                lemma_models_agree(self.base(), self.counter() as int, groups, names_of(predicates@), self.limit());
            }
        }
        // Build dependency graph and stratify
        let (names, strata) = match stratify(&self.rules) {
            Ok(x) => x,
            Err(e) => return Some(Err(e)),
        };
        let ghost stv = strata@.map_values(|x: usize| x as int);
        proof {
            let g = self.rule_groups();
            assert(names@.map_values(|s: String| s@).len() == g.map_values(|x: (Seq<char>, Seq<RuleV>)| x.0).len());
            assert forall|f: int, t: int, neg: bool| #[trigger] depends_on(g, f, t, neg) implies stv[f] >= stv[t] + (if neg {
                1int
            } else {
                0int
            }) by {
                let (r, c) = choose|r: int, c: int| #[trigger] dep_via(g, f, r, c, t, neg);
            }
            assert(strata_valid(g, stv));
            lemma_least_strata(g, strata@);
        }
        // Collect transitive dependencies of requested predicates
        assert(names@.map_values(|s: String| s@) =~= group_names(self.rule_groups()));
        let all_preds = self.relevant_predicates(predicates, &names);
        let ghost cl = pred_closure(self.rule_groups(), names_of(predicates@));
        let ghost nm = group_names(groups);
        assert(cl.subrange(0, 0) =~= Seq::<Seq<char>>::empty());
        // Group predicates by stratum
        let mut max_stratum: usize = 0;
        let mut k: usize = 0;
        while k < all_preds.len()
            invariant
                k <= all_preds.len(),
                strata.len() == names.len(),
                names_of(all_preds@) == cl,
                names@.map_values(|s: String| s@) == nm,
                nm == group_names(groups),
                distinct_predicates(groups),
                stv == strata@.map_values(|x: usize| x as int),
                forall|j: int| 0 <= j < strata.len() ==> strata@[j] < names.len(),
                max_stratum as int == top_stratum(groups, stv, cl.subrange(0, k as int)),
                max_stratum < names.len() || max_stratum == 0,
            decreases all_preds.len() - k,
        {
            let st = stratum_of(&names, &strata, all_preds[k].as_str());
            proof {
                lemma_pred_stratum(groups, names@, strata@, all_preds@[k as int]@, st);
                let c2 = cl.subrange(0, k + 1);
                assert(c2.drop_last() =~= cl.subrange(0, k as int));
                assert(c2.last() == all_preds@[k as int]@);
            }
            if st > max_stratum {
                max_stratum = st;
            }
            k = k + 1;
        }
        assert(cl.subrange(0, all_preds.len() as int) =~= cl);
        let ghost st0 = (rec_shapes(self.base()), self.counter() as int);
        let mut accumulated = self.storage.clone();
        assert(accumulated.records().subrange(0, self.base().len() as int) =~= self.base());
        let mut stratum: usize = 0;
        while stratum <= max_stratum
            invariant
                strata.len() == names.len(),
                names_of(all_preds@) == cl,
                names@.map_values(|s: String| s@) == nm,
                nm == group_names(groups),
                groups == self.rule_groups(),
                distinct_predicates(groups),
                stv == strata@.map_values(|x: usize| x as int),
                max_stratum as int == top_stratum(groups, stv, cl),
                max_stratum < usize::MAX,
                stratum <= max_stratum + 1,
                extends_with_assertions(self.base(), accumulated.records()),
                derived_from_heads(self.base(), accumulated.records(), groups),
                strata_run(st0, groups, stv, cl, stratum as nat, self.limit()) == Outcome::Done(
                    (rec_shapes(accumulated.records()), accumulated.counter() as int),
                ),
                stratifiable(groups),
                cond == (no_negated_clauses(groups) && all_assertions(self.base())),
                cond ==> models_agree(self.base(), self.counter() as int, groups, names_of(predicates@), self.limit()),
                stv == least_strata(groups),
                cl == pred_closure(groups, names_of(predicates@)),
                st0 == (rec_shapes(self.base()), self.counter() as int),
            decreases max_stratum + 1 - stratum,
        {
            let ghost sm = stratum_members(groups, stv, cl, stratum as int);
            let ghost stc = (rec_shapes(accumulated.records()), accumulated.counter() as int);
            let mut stratum_preds: Vec<String> = Vec::new();
            let mut k: usize = 0;
            assert(names_of(stratum_preds@) =~= Seq::<Seq<char>>::empty());
            while k < all_preds.len()
                invariant
                    k <= all_preds.len(),
                    strata.len() == names.len(),
                    names_of(all_preds@) == cl,
                    names@.map_values(|s: String| s@) == nm,
                    nm == group_names(groups),
                    distinct_predicates(groups),
                    stv == strata@.map_values(|x: usize| x as int),
                    names_of(stratum_preds@) == stratum_members(groups, stv, cl.subrange(0, k as int), stratum as int),
                decreases all_preds.len() - k,
            {
                let st = stratum_of(&names, &strata, all_preds[k].as_str());
                proof {
                    lemma_pred_stratum(groups, names@, strata@, all_preds@[k as int]@, st);
                    let c2 = cl.subrange(0, k + 1);
                    assert(c2.drop_last() =~= cl.subrange(0, k as int));
                    assert(c2.last() == all_preds@[k as int]@);
                }
                if st == stratum {
                    let ghost before = names_of(stratum_preds@);
                    let c = all_preds[k].clone();
                    stratum_preds.push(c);
                    assert(names_of(stratum_preds@) =~= before.push(c@));
                }
                k = k + 1;
            }
            assert(cl.subrange(0, all_preds.len() as int) =~= cl);
            assert(names_of(stratum_preds@) == sm);
            if stratum_preds.len() > 0 {
                // Partition rules into positive-only and mixed (containing Not)
                let (sub_registry, has_positive, mixed_rules) = self.partition_rules(&stratum_preds);
                // Evaluate positive-only rules via RecursiveEvaluator
                if has_positive {
                    match self.apply_positive_rules(&mut accumulated, &stratum_preds, sub_registry) {
                        None => {
                            proof {
                                lemma_strata_run_stays(st0, groups, stv, cl, (stratum + 1) as nat, (max_stratum + 1) as nat, self.limit());
                            }
                            return None;
                        },
                        Some(Err(e)) => {
                            proof {
                                lemma_strata_run_stays(st0, groups, stv, cl, (stratum + 1) as nat, (max_stratum + 1) as nat, self.limit());
                            }
                            return Some(Err(e));
                        },
                        Some(Ok(())) => {},
                    }
                }
                // Evaluate mixed rules (with not-filter)
                match apply_negated_rules(&mut accumulated, &mixed_rules, Ghost(self.base()), Ghost(groups)) {
                    None => {
                        proof {
                            lemma_strata_run_stays(st0, groups, stv, cl, (stratum + 1) as nat, (max_stratum + 1) as nat, self.limit());
                        }
                        return None;
                    },
                    Some(()) => {},
                }
            }
            assert(strata_run(st0, groups, stv, cl, (stratum + 1) as nat, self.limit()) == Outcome::Done(
                (rec_shapes(accumulated.records()), accumulated.counter() as int),
            ));
            stratum = stratum + 1;
        }
        proof { lemma_shape_net(accumulated.records()); }
        Some(Ok(accumulated))
    }
}

/// Checks the `not` clauses of a body in order under a binding, stopping at
/// the first whose body has a row (see [`not_scan`]).
fn negated_clause_holds(body: &Vec<WhereClause>, binding: &Bindings, current: &Vec<Fact>) -> (r: Option<bool>)
    ensures
        r == not_scan(clause_seq_view(body@), binding@, fact_triples(current@), body.len() as int),
{
    let ghost cs = clause_seq_view(body@);
    let ghost tc = fact_triples(current@);
    let mut rejected = false;
    let mut ci: usize = 0;
    while ci < body.len() && !rejected
        invariant
            ci <= body.len(),
            cs == clause_seq_view(body@),
            tc == fact_triples(current@),
            not_scan(cs, binding@, tc, ci as int) == Some(rejected),
        decreases body.len() - ci,
    {
        proof { assert(cs[ci as int] == clause_view(body@[ci as int])); }
        if let WhereClause::Not(not_body) = &body[ci] {
            match not_body_holds(not_body, binding, current) {
                None => {
                    proof {
                        assert(not_scan(cs, binding@, tc, ci + 1) is None);
                        lemma_not_scan_stays(cs, binding@, tc, ci + 1, cs.len() as int);
                    }
                    return None;
                },
                Some(true) => {
                    rejected = true;
                },
                Some(false) => {},
            }
        }
        ci = ci + 1;
    }
    proof {
        if rejected {
            lemma_not_scan_stays(cs, binding@, tc, ci as int, cs.len() as int);
        }
    }
    Some(rejected)
}

/// Checks the `not-join` clauses of a body in order under a binding,
/// stopping at the first that holds (see [`not_join_scan`]).
fn negated_join_holds(body: &Vec<WhereClause>, binding: &Bindings, current: &Vec<Fact>) -> (r: Option<bool>)
    ensures
        r == not_join_scan(clause_seq_view(body@), binding@, fact_triples(current@), body.len() as int),
{
    let ghost cs = clause_seq_view(body@);
    let ghost tc = fact_triples(current@);
    let mut rejected = false;
    let mut ci: usize = 0;
    while ci < body.len() && !rejected
        invariant
            ci <= body.len(),
            cs == clause_seq_view(body@),
            tc == fact_triples(current@),
            not_join_scan(cs, binding@, tc, ci as int) == Some(rejected),
        decreases body.len() - ci,
    {
        proof { assert(cs[ci as int] == clause_view(body@[ci as int])); }
        if let WhereClause::NotJoin { join_vars, clauses } = &body[ci] {
            proof { assert(names_of(join_vars@) =~= join_vars@.map_values(|v: String| v@)); }
            match evaluate_not_join_checked(join_vars, clauses, binding, current) {
                None => {
                    proof {
                        assert(not_join_scan(cs, binding@, tc, ci + 1) is None);
                        lemma_not_join_scan_stays(cs, binding@, tc, ci + 1, cs.len() as int);
                    }
                    return None;
                },
                Some(true) => {
                    rejected = true;
                },
                Some(false) => {},
            }
        }
        ci = ci + 1;
    }
    proof {
        if rejected {
            lemma_not_join_scan_stays(cs, binding@, tc, ci as int, cs.len() as int);
        }
    }
    Some(rejected)
}

/// One candidate binding of a rule with negations (see [`cand_step`]).
fn apply_candidate(
    accumulated: &mut FactStorage,
    rule: &Rule,
    binding: &Bindings,
    Ghost(base): Ghost<Seq<Fact>>,
    Ghost(groups): Ghost<Seq<(Seq<char>, Seq<RuleV>)>>,
) -> (r: Option<()>)
    requires
        is_group_rule(groups, rule@),
        extends_with_assertions(base, old(accumulated).records()),
        derived_from_heads(base, old(accumulated).records(), groups),
    ensures
        match cand_step((rec_shapes(old(accumulated).records()), old(accumulated).counter() as int), rule@, binding@) {
            Some(st) => r is Some && rec_shapes(final(accumulated).records()) == st.0 && final(accumulated).counter()
                == st.1,
            None => r is None,
        },
        r is Some ==> extends_with_assertions(base, final(accumulated).records()) && derived_from_heads(
            base,
            final(accumulated).records(),
            groups,
        ),
{
    let ghost st2 = (rec_shapes(accumulated.records()), accumulated.counter() as int);
    let ghost cs = rule@.body;
    let current = accumulated.get_asserted_facts();
    let ghost tc = fact_triples(current@);
    proof { lemma_shape_net(accumulated.records()); }
    let mut rejected = match negated_clause_holds(&rule.body, binding, &current) {
        None => return None,
        Some(x) => x,
    };
    if !rejected {
        rejected = match negated_join_holds(&rule.body, binding, &current) {
            None => return None,
            Some(x) => x,
        };
    }
    assert(rejected_by(cs, binding@, tc) == Some(rejected));
    assert(tc == shape_net(st2.0));
    // All Not / NotJoin conditions held -> derive head fact
    if !rejected {
        proof { lemma_spec_head_attr(edn_seq_view(rule.head@), binding@); }
        if let Ok(fact) = instantiate_head(rule.head.as_slice(), binding) {
            let ghost t = fact_triple(fact);
            let mut one: Vec<(EntityId, String, Value)> = Vec::new();
            one.push((fact.entity, fact.attribute, fact.value));
            let ghost before = accumulated.records();
            let ghost onev = one@;
            match accumulated.transact(one, None) {
                Ok(tx) => {
                    proof {
                        let rec = assertion_record(onev[0].0, onev[0].1, onev[0].2, None, tx, accumulated.counter());
                        assert(accumulated.records() =~= before.push(rec));
                        assert(rec_shape(rec) == (t, accumulated.counter() as int, true));
                        assert(rec_shapes(accumulated.records()) =~= rec_shapes(before).push(rec_shape(rec)));
                        lemma_extends_push(base, before, rec);
                        assert(head_attr(rule@.head, rec.attribute@));
                        lemma_group_rule_attr(groups, rule@, rec.attribute@);
                        lemma_derived_push(base, before, groups, rec);
                    }
                },
                Err(_) => {},
            }
        }
    }
    Some(())
}

/// One rule with negations (see [`neg_rule_step`]).
fn apply_negated_rule(
    accumulated: &mut FactStorage,
    rule: &Rule,
    Ghost(base): Ghost<Seq<Fact>>,
    Ghost(groups): Ghost<Seq<(Seq<char>, Seq<RuleV>)>>,
) -> (r: Option<()>)
    requires
        is_group_rule(groups, rule@),
        extends_with_assertions(base, old(accumulated).records()),
        derived_from_heads(base, old(accumulated).records(), groups),
    ensures
        match neg_rule_step((rec_shapes(old(accumulated).records()), old(accumulated).counter() as int), rule@) {
            Some(st) => r is Some && rec_shapes(final(accumulated).records()) == st.0 && final(accumulated).counter()
                == st.1,
            None => r is None,
        },
        r is Some ==> extends_with_assertions(base, final(accumulated).records()) && derived_from_heads(
            base,
            final(accumulated).records(),
            groups,
        ),
{
    let ghost st1 = (rec_shapes(accumulated.records()), accumulated.counter() as int);
    let positive = positive_patterns(&rule.body);
    let facts = accumulated.get_asserted_facts();
    proof { lemma_shape_net(accumulated.records()); }
    let matcher = PatternMatcher::from_slice(facts);
    let raw_candidates = matcher.match_patterns(positive.as_slice());
    // Apply top-level Expr clauses to filter/extend candidates
    let candidates = match apply_expr_clauses_checked(raw_candidates, rule.body.as_slice()) {
        Some(c) => c,
        None => return None,
    };
    let ghost cv = bindings_view(candidates@);
    assert(cv.subrange(0, 0) =~= Seq::<BindingV>::empty());
    assert(neg_rule_step(st1, rule@) == cands_fold(st1, rule@, cv));
    let mut c: usize = 0;
    while c < candidates.len()
        invariant
            c <= candidates.len(),
            cv == bindings_view(candidates@),
            is_group_rule(groups, rule@),
            neg_rule_step(st1, rule@) == cands_fold(st1, rule@, cv),
            st1 == (rec_shapes(old(accumulated).records()), old(accumulated).counter() as int),
            cands_fold(st1, rule@, cv.subrange(0, c as int)) == Some(
                (rec_shapes(accumulated.records()), accumulated.counter() as int),
            ),
            extends_with_assertions(base, accumulated.records()),
            derived_from_heads(base, accumulated.records(), groups),
        decreases candidates.len() - c,
    {
        proof {
            let c2 = cv.subrange(0, c + 1);
            assert(c2.drop_last() =~= cv.subrange(0, c as int));
            assert(c2.last() == candidates@[c as int]@);
        }
        match apply_candidate(accumulated, rule, &candidates[c], Ghost(base), Ghost(groups)) {
            None => {
                proof { lemma_cands_fold_none(st1, rule@, cv, c + 1); }
                return None;
            },
            Some(()) => {},
        }
        c = c + 1;
    }
    proof { assert(cv.subrange(0, candidates.len() as int) =~= cv); }
    Some(())
}

/// Applies the rules with negations in turn (see [`neg_rules_fold`]): each
/// rule's candidates are matched against the facts at its start, and each
/// candidate that no negation rejects (checked against the facts as they are
/// then) has its head fact asserted. `None` when an expression overflows.
fn apply_negated_rules(
    accumulated: &mut FactStorage,
    mixed_rules: &Vec<Rule>,
    Ghost(base): Ghost<Seq<Fact>>,
    Ghost(groups): Ghost<Seq<(Seq<char>, Seq<RuleV>)>>,
) -> (r: Option<()>)
    requires
        forall|m: int| 0 <= m < mixed_rules.len() ==> is_group_rule(groups, (#[trigger] mixed_rules@[m])@),
        extends_with_assertions(base, old(accumulated).records()),
        derived_from_heads(base, old(accumulated).records(), groups),
    ensures
        match neg_rules_fold(
            (rec_shapes(old(accumulated).records()), old(accumulated).counter() as int),
            rules_view(mixed_rules@),
        ) {
            Some(st) => r is Some && rec_shapes(final(accumulated).records()) == st.0 && final(accumulated).counter()
                == st.1,
            None => r is None,
        },
        r is Some ==> extends_with_assertions(base, final(accumulated).records()) && derived_from_heads(
            base,
            final(accumulated).records(),
            groups,
        ),
        mixed_rules.len() == 0 ==> final(accumulated).records() == old(accumulated).records(),
{
    let ghost st0 = (rec_shapes(accumulated.records()), accumulated.counter() as int);
    let ghost rv = rules_view(mixed_rules@);
    let ghost rec0 = accumulated.records();
    assert(rv.subrange(0, 0) =~= Seq::<RuleV>::empty());
    let mut m: usize = 0;
    while m < mixed_rules.len()
        invariant
            m <= mixed_rules.len(),
            rv == rules_view(mixed_rules@),
            forall|q: int| 0 <= q < mixed_rules.len() ==> is_group_rule(groups, (#[trigger] mixed_rules@[q])@),
            neg_rules_fold(st0, rv.subrange(0, m as int)) == Some(
                (rec_shapes(accumulated.records()), accumulated.counter() as int),
            ),
            st0 == (rec_shapes(old(accumulated).records()), old(accumulated).counter() as int),
            rec0 == old(accumulated).records(),
            extends_with_assertions(base, accumulated.records()),
            derived_from_heads(base, accumulated.records(), groups),
            m == 0 ==> accumulated.records() == rec0,
        decreases mixed_rules.len() - m,
    {
        proof {
            let r2 = rv.subrange(0, m + 1);
            assert(r2.drop_last() =~= rv.subrange(0, m as int));
            assert(r2.last() == mixed_rules@[m as int]@);
            assert(is_group_rule(groups, mixed_rules@[m as int]@));
        }
        match apply_negated_rule(accumulated, &mixed_rules[m], Ghost(base), Ghost(groups)) {
            None => {
                proof { lemma_neg_rules_fold_none(st0, rv, m + 1); }
                return None;
            },
            Some(()) => {},
        }
        m = m + 1;
    }
    assert(rv.subrange(0, mixed_rules.len() as int) =~= rv);
    Some(())
}

proof fn lemma_extends_push(base: Seq<Fact>, before: Seq<Fact>, x: Fact)
    requires
        extends_with_assertions(base, before),
        x.asserted,
    ensures
        extends_with_assertions(base, before.push(x)),
{
    let after = before.push(x);
    assert(after.subrange(0, base.len() as int) =~= before.subrange(0, base.len() as int));
    assert forall|j: int| base.len() <= j < after.len() implies (#[trigger] after[j]).asserted by {
        if j < before.len() {
            assert(after[j] == before[j]);
        }
    }
}

} // verus!
