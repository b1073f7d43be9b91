//! Query planning: index selection and join ordering for Datalog patterns,
//! placement of expression clauses, and static cost estimates of clauses.
use vstd::prelude::*;
use crate::query::datalog::types::{EdnV, EdnValue, Expr, Pattern, PatternV, WhereClause, edn_is_var, patterns_view};

verus! {

/// Which covering index to use for a given pattern.
#[derive(Debug, Clone, Copy, PartialEq, Eq, Structural)]
pub enum IndexHint {
    /// EAVT: entity-first scan. Also used when nothing is bound (full scan).
    Eavt,
    /// AEVT: attribute-first scan.
    Aevt,
    /// AVET: attribute + value equality / range lookup.
    Avet,
    /// VAET: reverse reference lookup (Ref value only, no attribute).
    Vaet,
}

/// The index for a pattern: entity bound → EAVT; attribute and value bound →
/// AVET; attribute only → AEVT; an entity literal as value with nothing else
/// bound → VAET; nothing bound → EAVT (full scan).
pub open spec fn spec_select_index(p: PatternV) -> IndexHint {
    let e = !edn_is_var(p.entity);
    let a = !edn_is_var(p.attribute);
    let v = !edn_is_var(p.value);
    if e {
        IndexHint::Eavt
    } else if a && v {
        IndexHint::Avet
    } else if a {
        IndexHint::Aevt
    } else if v && p.value is Uuid {
        IndexHint::Vaet
    } else {
        IndexHint::Eavt
    }
}

/// The number of bound (non-variable) components of a pattern (0 to 3).
pub open spec fn score(p: PatternV) -> nat {
    (if !edn_is_var(p.entity) { 1nat } else { 0nat }) + (if !edn_is_var(p.attribute) { 1nat } else { 0nat })
        + (if !edn_is_var(p.value) { 1nat } else { 0nat })
}

/// Whether the component is a logic variable.
pub fn is_variable(v: &EdnValue) -> (r: bool)
    ensures
        r == edn_is_var(v@),
{
    v.is_variable()
}

/// Whether the component is an entity literal (a UUID).
pub fn is_entity_literal(v: &EdnValue) -> (r: bool)
    ensures
        r == (v@ is Uuid),
{
    match v {
        EdnValue::Uuid(_) => true,
        _ => false,
    }
}

/// Whether the attribute is bound (not a variable), so usable by an index.
pub fn attr_is_index_bound(a: &EdnValue) -> (r: bool)
    ensures
        r == !edn_is_var(a@),
{
    !is_variable(a)
}

/// The number of bound components of a pattern; higher is more selective.
pub fn selectivity_score(p: &Pattern) -> (r: u8)
    ensures
        r == score(p@),
{
    let e: u8 = if !is_variable(&p.entity) { 1 } else { 0 };
    let a: u8 = if attr_is_index_bound(&p.attribute) { 1 } else { 0 };
    let v: u8 = if !is_variable(&p.value) { 1 } else { 0 };
    e + a + v
}

/// Selects the most efficient index for a pattern.
pub fn select_index(p: &Pattern) -> (r: IndexHint)
    ensures
        r == spec_select_index(p@),
{
    let e_bound = !is_variable(&p.entity);
    let a_bound = attr_is_index_bound(&p.attribute);
    let v_bound = !is_variable(&p.value);
    if e_bound {
        return IndexHint::Eavt;
    }
    if a_bound && v_bound {
        return IndexHint::Avet;
    }
    if a_bound {
        return IndexHint::Aevt;
    }
    if v_bound && is_entity_literal(&p.value) {
        return IndexHint::Vaet;
    }
    IndexHint::Eavt
}

/// The variable names referenced in an expression, left to right (with
/// repetitions).
pub open spec fn spec_expr_vars(e: Expr) -> Seq<Seq<char>>
    decreases e,
{
    match e {
        Expr::Var(s) => seq![s@],
        Expr::Lit(_) => seq![],
        Expr::BinOp(_, l, r) => spec_expr_vars(*l) + spec_expr_vars(*r),
        Expr::UnaryOp(_, inner) => spec_expr_vars(*inner),
    }
}

/// The models of a list of strings.
pub open spec fn names_view(s: Seq<String>) -> Seq<Seq<char>> {
    s.map_values(|x: String| x@)
}

/// Collects the logic-variable names referenced in an expression tree.
pub fn expr_vars(expr: &Expr) -> (r: Vec<String>)
    ensures
        names_view(r@) == spec_expr_vars(*expr),
    decreases expr,
{
    match expr {
        Expr::Var(s) => {
            let mut v: Vec<String> = Vec::new();
            v.push(s.clone());
            assert(names_view(v@) =~= seq![s@]);
            v
        },
        Expr::Lit(_) => {
            let v: Vec<String> = Vec::new();
            assert(names_view(v@) =~= Seq::<Seq<char>>::empty());
            v
        },
        Expr::BinOp(_, l, r) => {
            let mut vars = expr_vars(l);
            let mut more = expr_vars(r);
            let ghost a = names_view(vars@);
            let ghost b = names_view(more@);
            vars.append(&mut more);
            assert(names_view(vars@) =~= a + b);
            vars
        },
        Expr::UnaryOp(_, inner) => expr_vars(inner),
    }
}

/// The variable names a pattern binds: each of its components that is a
/// logic variable, in entity, attribute, value order.
pub open spec fn spec_pattern_bound_vars(p: PatternV) -> Seq<Seq<char>> {
    (if edn_is_var(p.entity) { seq![p.entity->Symbol_0] } else { seq![] })
        + (if edn_is_var(p.attribute) { seq![p.attribute->Symbol_0] } else { seq![] })
        + (if edn_is_var(p.value) { seq![p.value->Symbol_0] } else { seq![] })
}

fn push_var_name(vars: &mut Vec<String>, c: &EdnValue)
    ensures
        names_view(final(vars)@) == names_view(old(vars)@)
            + (if edn_is_var(c@) { seq![c@->Symbol_0] } else { seq![] }),
{
    let ghost before = names_view(vars@);
    if is_variable(c) {
        match c {
            EdnValue::Symbol(s) => {
                vars.push(s.clone());
                assert(names_view(vars@) =~= before + seq![s@]);
            },
            _ => {},
        }
    } else {
        assert(names_view(vars@) =~= before + Seq::<Seq<char>>::empty());
    }
}

/// Collects the logic-variable names bound by a pattern.
pub fn pattern_bound_vars(p: &Pattern) -> (r: Vec<String>)
    ensures
        names_view(r@) == spec_pattern_bound_vars(p@),
{
    let mut vars: Vec<String> = Vec::new();
    assert(names_view(vars@) =~= Seq::<Seq<char>>::empty());
    push_var_name(&mut vars, &p.entity);
    push_var_name(&mut vars, &p.attribute);
    push_var_name(&mut vars, &p.value);
    assert(names_view(vars@) =~= spec_pattern_bound_vars(p@));
    vars
}

/// The pattern clauses of `cs` whose score is `k`, in order.
pub open spec fn patterns_scored(cs: Seq<WhereClause>, k: nat) -> Seq<WhereClause> {
    cs.filter(|c: WhereClause| c matches WhereClause::Pattern(p) && score(p@) == k)
}

/// The pattern clauses of `cs` ordered by descending score, keeping the
/// given order among patterns of equal score (a stable sort).
pub open spec fn sorted_patterns(cs: Seq<WhereClause>) -> Seq<WhereClause> {
    patterns_scored(cs, 3) + patterns_scored(cs, 2) + patterns_scored(cs, 1) + patterns_scored(cs, 0)
}

/// The expression clauses of `cs`, in order.
pub open spec fn expr_clauses(cs: Seq<WhereClause>) -> Seq<WhereClause> {
    cs.filter(|c: WhereClause| c is Expr)
}

/// The hint a planned clause carries: the pattern's index, or none for an
/// expression.
pub open spec fn planned_hint(c: WhereClause) -> Option<IndexHint> {
    match c {
        WhereClause::Pattern(p) => Some(spec_select_index(p@)),
        _ => None,
    }
}

/// The variables bound by the pattern clauses of `cs`.
pub open spec fn bound_by(cs: Seq<(WhereClause, Option<IndexHint>)>) -> Set<Seq<char>>
    decreases cs.len(),
{
    if cs.len() == 0 {
        Set::empty()
    } else {
        bound_by(cs.drop_last()) + match cs.last().0 {
            WhereClause::Pattern(p) => spec_pattern_bound_vars(p@).to_set(),
            _ => Set::empty(),
        }
    }
}

/// Whether `i` is the first position of `cs` by which (inclusive) every
/// variable of `vars` is bound.
pub open spec fn first_binding_pos(
    cs: Seq<(WhereClause, Option<IndexHint>)>,
    vars: Set<Seq<char>>,
    i: int,
) -> bool {
    0 <= i < cs.len() && vars.subset_of(bound_by(cs.subrange(0, i + 1)))
        && forall|j: int| 0 <= j < i ==> !vars.subset_of(#[trigger] bound_by(cs.subrange(0, j + 1)))
}

/// Where an expression clause with variables `vars` goes: right after the
/// first clause by which all its variables are bound; at the end when it has
/// no variables or they are never all bound.
pub open spec fn expr_position(cs: Seq<(WhereClause, Option<IndexHint>)>, vars: Seq<Seq<char>>) -> int {
    if vars.len() == 0 || !exists|i: int| first_binding_pos(cs, vars.to_set(), i) {
        cs.len() as int
    } else {
        (choose|i: int| first_binding_pos(cs, vars.to_set(), i)) + 1
    }
}

/// The variables of an expression clause.
pub open spec fn clause_expr_vars(c: WhereClause) -> Seq<Seq<char>> {
    match c {
        WhereClause::Expr { expr, .. } => spec_expr_vars(expr),
        _ => seq![],
    }
}

/// `cs` with the expression clauses `es` placed one after another.
pub open spec fn place_exprs(
    cs: Seq<(WhereClause, Option<IndexHint>)>,
    es: Seq<WhereClause>,
) -> Seq<(WhereClause, Option<IndexHint>)>
    decreases es.len(),
{
    if es.len() == 0 {
        cs
    } else {
        let prev = place_exprs(cs, es.drop_last());
        prev.insert(expr_position(prev, clause_expr_vars(es.last())), (es.last(), None))
    }
}

/// The plan of a clause list: the patterns by descending selectivity (each
/// with its index hint), then each expression clause placed where its
/// variables become bound. Other clauses are not planned and are dropped.
pub open spec fn spec_plan(cs: Seq<WhereClause>) -> Seq<(WhereClause, Option<IndexHint>)> {
    place_exprs(
        sorted_patterns(cs).map_values(|c: WhereClause| (c, planned_hint(c))),
        expr_clauses(cs),
    )
}

/// The pattern test of `patterns_scored`, for score `k`.
pub open spec fn scored_pred(k: nat) -> spec_fn(WhereClause) -> bool {
    |c: WhereClause| c matches WhereClause::Pattern(p) && score(p@) == k
}

/// The expression test of `expr_clauses`.
pub open spec fn expr_pred() -> spec_fn(WhereClause) -> bool {
    |c: WhereClause| c is Expr
}

proof fn lemma_filter_step<A>(s: Seq<A>, i: int, f: spec_fn(A) -> bool)
    requires
        0 <= i < s.len(),
    ensures
        s.subrange(0, i + 1).filter(f) == (if f(s[i]) {
            s.subrange(0, i).filter(f).push(s[i])
        } else {
            s.subrange(0, i).filter(f)
        }),
{
    reveal(Seq::filter);
    assert(s.subrange(0, i + 1).drop_last() =~= s.subrange(0, i));
}

/// Whether every name of `vars` occurs in `bound`.
fn all_bound(vars: &Vec<String>, bound: &Vec<String>) -> (r: bool)
    ensures
        r == names_view(vars@).to_set().subset_of(names_view(bound@).to_set()),
{
    let mut i: usize = 0;
    while i < vars.len()
        invariant
            i <= vars@.len(),
            forall|j: int| 0 <= j < i ==> names_view(bound@).contains(#[trigger] names_view(vars@)[j]),
        decreases vars.len() - i,
    {
        let mut found = false;
        let mut k: usize = 0;
        while k < bound.len()
            invariant
                k <= bound@.len(),
                i < vars@.len(),
                found == exists|q: int| 0 <= q < k && bound@[q]@ == vars@[i as int]@,
            decreases bound.len() - k,
        {
            if crate::text::str_is(bound[k].as_str(), vars[i].as_str()) {
                found = true;
            }
            k = k + 1;
        }
        if !found {
            proof {
                let x = names_view(vars@)[i as int];
                assert(names_view(vars@).to_set().contains(x));
                if names_view(bound@).contains(x) {
                    let q = choose|q: int| 0 <= q < names_view(bound@).len() && names_view(bound@)[q] == x;
                    assert(bound@[q]@ == vars@[i as int]@);
                }
            }
            return false;
        }
        proof {
            let q = choose|q: int| 0 <= q < k && bound@[q]@ == vars@[i as int]@;
            assert(names_view(bound@)[q] == names_view(vars@)[i as int]);
        }
        i = i + 1;
    }
    proof {
        assert forall|x: Seq<char>| names_view(vars@).to_set().contains(x) implies names_view(bound@).to_set().contains(x) by {
            let j = choose|j: int| 0 <= j < names_view(vars@).len() && names_view(vars@)[j] == x;
            assert(names_view(bound@).contains(names_view(vars@)[j]));
        }
    }
    true
}

/// Plans a list of where clauses: pattern clauses get index hints and are
/// ordered by descending selectivity (stably); each expression clause is
/// placed right after the first pattern by which all its variables are bound
/// (at the end if it has none or they are never all bound). Only pattern and
/// expression clauses are planned; other clauses are dropped.
pub fn plan(clauses: Vec<WhereClause>) -> (r: Vec<(WhereClause, Option<IndexHint>)>)
    ensures
        r@ == spec_plan(clauses@),
{
    let ghost cs = clauses@;
    let n = clauses.len();
    let mut buckets: Vec<Vec<WhereClause>> = Vec::new();
    buckets.push(Vec::new());
    buckets.push(Vec::new());
    buckets.push(Vec::new());
    buckets.push(Vec::new());
    let mut exprs: Vec<WhereClause> = Vec::new();
    let mut rest = clauses;
    assert(rest@ =~= cs.subrange(0, n as int));
    let mut taken: usize = 0;
    // Distribute the clauses, in order, into score buckets and expressions.
    let mut b3: Vec<WhereClause> = Vec::new();
    let mut b2: Vec<WhereClause> = Vec::new();
    let mut b1: Vec<WhereClause> = Vec::new();
    let mut b0: Vec<WhereClause> = Vec::new();
    while taken < n
        invariant
            taken <= n,
            n == cs.len(),
            rest@ == cs.subrange(taken as int, n as int),
            b3@ == cs.subrange(0, taken as int).filter(scored_pred(3)),
            b2@ == cs.subrange(0, taken as int).filter(scored_pred(2)),
            b1@ == cs.subrange(0, taken as int).filter(scored_pred(1)),
            b0@ == cs.subrange(0, taken as int).filter(scored_pred(0)),
            exprs@ == cs.subrange(0, taken as int).filter(expr_pred()),
        decreases n - taken,
    {
        let c = rest.remove(0);
        assert(c == cs[taken as int]);
        assert(rest@ =~= cs.subrange(taken + 1, n as int));
        proof {
            lemma_filter_step(cs, taken as int, scored_pred(3));
            lemma_filter_step(cs, taken as int, scored_pred(2));
            lemma_filter_step(cs, taken as int, scored_pred(1));
            lemma_filter_step(cs, taken as int, scored_pred(0));
            lemma_filter_step(cs, taken as int, expr_pred());
        }
        match c {
            WhereClause::Pattern(p) => {
                let s = selectivity_score(&p);
                if s == 3 {
                    b3.push(WhereClause::Pattern(p));
                } else if s == 2 {
                    b2.push(WhereClause::Pattern(p));
                } else if s == 1 {
                    b1.push(WhereClause::Pattern(p));
                } else {
                    b0.push(WhereClause::Pattern(p));
                }
            },
            WhereClause::Expr { expr, binding } => {
                exprs.push(WhereClause::Expr { expr, binding });
            },
            _ => {},
        }
        taken = taken + 1;
    }
    assert(cs.subrange(0, n as int) =~= cs);
    let ghost sorted = sorted_patterns(cs);
    let mut ordered: Vec<WhereClause> = Vec::new();
    ordered.append(&mut b3);
    ordered.append(&mut b2);
    ordered.append(&mut b1);
    ordered.append(&mut b0);
    assert(ordered@ =~= sorted);
    assert(ordered@ =~= sorted.subrange(0, sorted.len() as int));
    // Attach the hints.
    let mut result: Vec<(WhereClause, Option<IndexHint>)> = Vec::new();
    let m = ordered.len();
    let mut k: usize = 0;
    while k < m
        invariant
            k <= m,
            m == sorted.len(),
            ordered@ == sorted.subrange(k as int, m as int),
            result@ == sorted.subrange(0, k as int).map_values(|c: WhereClause| (c, planned_hint(c))),
        decreases m - k,
    {
        let c = ordered.remove(0);
        assert(c == sorted[k as int]);
        assert(ordered@ =~= sorted.subrange(k + 1, m as int));
        let hint = match &c {
            WhereClause::Pattern(p) => Some(select_index(p)),
            _ => None,
        };
        result.push((c, hint));
        k = k + 1;
        assert(result@ =~= sorted.subrange(0, k as int).map_values(|c: WhereClause| (c, planned_hint(c))));
    }
    assert(sorted.subrange(0, m as int) =~= sorted);
    // Place the expression clauses.
    let ghost es = exprs@;
    let ghost base = result@;
    assert(es =~= es.subrange(0, es.len() as int));
    let en = exprs.len();
    let mut q: usize = 0;
    while q < en
        invariant
            q <= en,
            en == es.len(),
            exprs@ == es.subrange(q as int, en as int),
            forall|j: int| 0 <= j < es.len() ==> es[j] is Expr,
            result@ == place_exprs(base, es.subrange(0, q as int)),
        decreases en - q,
    {
        let e = exprs.remove(0);
        assert(e == es[q as int]);
        assert(exprs@ =~= es.subrange(q + 1, en as int));
        proof {
            assert(es.subrange(0, q + 1).drop_last() =~= es.subrange(0, q as int));
        }
        let vars = match &e {
            WhereClause::Expr { expr, .. } => expr_vars(expr),
            _ => Vec::new(),
        };
        let ghost vseq = names_view(vars@);
        let ghost vset = vseq.to_set();
        assert(vseq == clause_expr_vars(e));
        let ghost prev = result@;
        let mut insert_pos = result.len();
        if vars.len() > 0 {
            let mut bound: Vec<String> = Vec::new();
            let mut pos: usize = 0;
            assert(names_view(bound@).to_set() =~= bound_by(prev.subrange(0, 0)));
            while pos < result.len()
                invariant_except_break
                    insert_pos == result@.len(),
                    names_view(bound@).to_set() == bound_by(prev.subrange(0, pos as int)),
                    forall|j: int| 0 <= j < pos ==> !vset.subset_of(#[trigger] bound_by(prev.subrange(0, j + 1))),
                invariant
                    pos <= result@.len(),
                    prev == result@,
                    vars@.len() > 0,
                    vseq == names_view(vars@),
                    vset == vseq.to_set(),
                ensures
                    insert_pos == expr_position(prev, vseq),
                decreases result.len() - pos,
            {
                proof {
                    assert(prev.subrange(0, pos + 1).drop_last() =~= prev.subrange(0, pos as int));
                }
                match &result[pos].0 {
                    WhereClause::Pattern(p) => {
                        let mut more = pattern_bound_vars(p);
                        let ghost old_b = names_view(bound@);
                        bound.append(&mut more);
                        assert(names_view(bound@) =~= old_b + spec_pattern_bound_vars(p@));
                        proof {
                            vstd::seq_lib::seq_to_set_distributes_over_add(old_b, spec_pattern_bound_vars(p@));
                        }
                    },
                    _ => {
                        proof {
                            assert(bound_by(prev.subrange(0, pos + 1)) =~= bound_by(prev.subrange(0, pos as int)));
                        }
                    },
                }
                if all_bound(&vars, &bound) {
                    insert_pos = pos + 1;
                    proof {
                        assert(first_binding_pos(prev, vset, pos as int));
                        let c = choose|i: int| first_binding_pos(prev, vset, i);
                        assert(c == pos) by {
                            if c < pos {
                                assert(!vset.subset_of(bound_by(prev.subrange(0, c + 1))));
                            }
                            if c > pos {
                            }
                        }
                    }
                    break;
                }
                pos = pos + 1;
            }
        }
        result.insert(insert_pos, (e, None));
        q = q + 1;
    }
    assert(es.subrange(0, en as int) =~= es);
    result
}

/// The static cost estimate of one pattern: 1, 10, 100 or 10000 for 3, 2,
/// 1 or 0 bound components.
pub open spec fn spec_pattern_cost(p: PatternV) -> u64 {
    let s = score(p);
    if s == 3 { 1 } else if s == 2 { 10 } else if s == 1 { 100 } else { 10000 }
}

/// The cost estimate of a pattern (lower is cheaper).
pub fn pattern_cost(p: &Pattern) -> (r: u64)
    ensures
        r == spec_pattern_cost(p@),
{
    let s = selectivity_score(p);
    if s == 3 { 1 } else if s == 2 { 10 } else if s == 1 { 100 } else { 10000 }
}

/// The least pattern cost among the pattern clauses of `cs` (0 when it has
/// no pattern clause).
pub open spec fn spec_branch_cost(cs: Seq<WhereClause>) -> u64
    decreases cs.len(),
{
    if cs.len() == 0 {
        0
    } else {
        let rest = spec_branch_cost(cs.drop_last());
        let rest_has = exists|i: int| 0 <= i < cs.len() - 1 && #[trigger] cs[i] is Pattern;
        match cs.last() {
            WhereClause::Pattern(p) => {
                let c = spec_pattern_cost(p@);
                if !rest_has || c < rest { c } else { rest }
            },
            _ => rest,
        }
    }
}

/// The estimated cost of a body or branch: the least cost of its patterns
/// (the most selective pattern bounds the join), 0 without patterns.
pub fn branch_cost(branch: &[WhereClause]) -> (r: u64)
    ensures
        r == spec_branch_cost(branch@),
{
    let mut best: u64 = 0;
    let mut seen = false;
    let mut i: usize = 0;
    while i < branch.len()
        invariant
            i <= branch@.len(),
            seen == exists|j: int| 0 <= j < i && #[trigger] branch@[j] is Pattern,
            best == spec_branch_cost(branch@.subrange(0, i as int)),
        decreases branch.len() - i,
    {
        proof {
            let s = branch@.subrange(0, i + 1);
            assert(s.drop_last() =~= branch@.subrange(0, i as int));
            assert(s.last() == branch@[i as int]);
            assert forall|j: int| 0 <= j < s.len() - 1 implies (#[trigger] s[j] is Pattern) == (branch@[j] is Pattern) by {}
        }
        match &branch[i] {
            WhereClause::Pattern(p) => {
                let c = pattern_cost(p);
                if !seen || c < best {
                    best = c;
                }
                seen = true;
            },
            _ => {},
        }
        i = i + 1;
        proof {
            let s = branch@.subrange(0, i as int);
            let h = exists|j: int| 0 <= j < s.len() - 1 && #[trigger] s[j] is Pattern;
            assert(h == exists|j: int| 0 <= j < i - 1 && #[trigger] branch@[j] is Pattern) by {
                if h {
                    let j = choose|j: int| 0 <= j < s.len() - 1 && #[trigger] s[j] is Pattern;
                    assert(branch@[j] is Pattern);
                }
                if exists|j: int| 0 <= j < i - 1 && #[trigger] branch@[j] is Pattern {
                    let j = choose|j: int| 0 <= j < i - 1 && #[trigger] branch@[j] is Pattern;
                    assert(s[j] is Pattern);
                }
            }
            if branch@[i - 1] is Pattern {
                assert(branch@[i - 1] is Pattern);
            }
        }
    }
    assert(branch@.subrange(0, branch.len() as int) =~= branch@);
    best
}

/// The sum of the branch costs of the branches.
pub open spec fn branches_cost(bs: Seq<Vec<WhereClause>>) -> int
    decreases bs.len(),
{
    if bs.len() == 0 {
        0
    } else {
        branches_cost(bs.drop_last()) + spec_branch_cost(bs.last()@)
    }
}

/// The estimated cost of a clause: a pattern's cost; 0 for an expression;
/// the body cost for `not` and `not-join`; the summed branch costs for `or`
/// and `or-join`; `u64::MAX` for a rule invocation.
pub open spec fn spec_clause_cost(c: WhereClause) -> int {
    match c {
        WhereClause::Pattern(p) => spec_pattern_cost(p@) as int,
        WhereClause::Expr { .. } => 0,
        WhereClause::Not(body) => spec_branch_cost(body@) as int,
        WhereClause::NotJoin { clauses, .. } => spec_branch_cost(clauses@) as int,
        WhereClause::Or(branches) => branches_cost(branches@),
        WhereClause::OrJoin { branches, .. } => branches_cost(branches@),
        WhereClause::RuleInvocation { .. } => u64::MAX as int,
    }
}

fn sum_branch_costs(branches: &Vec<Vec<WhereClause>>) -> (r: u64)
    requires
        branches_cost(branches@) <= u64::MAX,
    ensures
        r == branches_cost(branches@),
{
    let mut total: u64 = 0;
    let mut i: usize = 0;
    while i < branches.len()
        invariant
            i <= branches@.len(),
            branches_cost(branches@) <= u64::MAX,
            total == branches_cost(branches@.subrange(0, i as int)),
        decreases branches.len() - i,
    {
        proof {
            let s = branches@.subrange(0, i + 1);
            assert(s.drop_last() =~= branches@.subrange(0, i as int));
            lemma_branches_cost_prefix(branches@, i + 1);
        }
        let c = branch_cost(branches[i].as_slice());
        total = total + c;
        i = i + 1;
    }
    assert(branches@.subrange(0, branches.len() as int) =~= branches@);
    total
}

proof fn lemma_branches_cost_prefix(bs: Seq<Vec<WhereClause>>, k: int)
    requires
        0 <= k <= bs.len(),
    ensures
        branches_cost(bs.subrange(0, k)) <= branches_cost(bs),
    decreases bs.len() - k,
{
    if k < bs.len() {
        lemma_branches_cost_prefix(bs, k + 1);
        assert(bs.subrange(0, k + 1).drop_last() =~= bs.subrange(0, k));
    } else {
        assert(bs.subrange(0, k) =~= bs);
    }
}

/// The estimated cost of evaluating a where clause (lower is cheaper). The
/// summed cost of a disjunction must fit in 64 bits.
pub fn clause_cost(clause: &WhereClause) -> (r: u64)
    requires
        spec_clause_cost(*clause) <= u64::MAX,
    ensures
        r == spec_clause_cost(*clause),
{
    match clause {
        WhereClause::Pattern(p) => pattern_cost(p),
        WhereClause::Expr { .. } => 0,
        WhereClause::Not(body) => branch_cost(body.as_slice()),
        WhereClause::NotJoin { clauses, .. } => branch_cost(clauses.as_slice()),
        WhereClause::Or(branches) => sum_branch_costs(branches),
        WhereClause::OrJoin { branches, .. } => sum_branch_costs(branches),
        WhereClause::RuleInvocation { .. } => u64::MAX,
    }
}

/// The patterns of `ps` whose score is `k`, in order.
pub open spec fn scored(ps: Seq<PatternV>, k: nat) -> Seq<PatternV>
    decreases ps.len(),
{
    if ps.len() == 0 {
        seq![]
    } else if score(ps.last()) == k {
        scored(ps.drop_last(), k).push(ps.last())
    } else {
        scored(ps.drop_last(), k)
    }
}

/// Patterns in join order: by descending number of bound components,
/// keeping the given order among patterns of equal score.
pub open spec fn planned_patterns(ps: Seq<PatternV>) -> Seq<PatternV> {
    scored(ps, 3) + scored(ps, 2) + scored(ps, 1) + scored(ps, 0)
}

fn push_scored(out: &mut Vec<Pattern>, patterns: &Vec<Pattern>, k: u8)
    ensures
        patterns_view(final(out)@) == patterns_view(old(out)@) + scored(patterns_view(patterns@), k as nat),
{
    let ghost start = patterns_view(out@);
    let ghost pv = patterns_view(patterns@);
    let mut i: usize = 0;
    assert(start + scored(pv.subrange(0, 0), k as nat) =~= start);
    while i < patterns.len()
        invariant
            i <= patterns.len(),
            pv == patterns_view(patterns@),
            patterns_view(out@) == start + scored(pv.subrange(0, i as int), k as nat),
        decreases patterns.len() - i,
    {
        assert(pv.subrange(0, i + 1).drop_last() =~= pv.subrange(0, i as int));
        assert(pv.subrange(0, i + 1).last() == patterns@[i as int]@);
        if selectivity_score(&patterns[i]) == k {
            let ghost before = patterns_view(out@);
            out.push(patterns[i].clone());
            assert(patterns_view(out@) =~= before.push(patterns@[i as int]@));
        }
        i = i + 1;
    }
    assert(pv.subrange(0, patterns.len() as int) =~= pv);
}

/// Orders patterns for joining: most bound components first (a stable sort
/// by selectivity).
pub fn plan_patterns(patterns: &Vec<Pattern>) -> (r: Vec<Pattern>)
    ensures
        patterns_view(r@) == planned_patterns(patterns_view(patterns@)),
{
    let mut out: Vec<Pattern> = Vec::new();
    assert(patterns_view(out@) =~= Seq::<PatternV>::empty());
    push_scored(&mut out, patterns, 3);
    push_scored(&mut out, patterns, 2);
    push_scored(&mut out, patterns, 1);
    push_scored(&mut out, patterns, 0);
    assert(patterns_view(out@) =~= planned_patterns(patterns_view(patterns@)));
    out
}

} // verus!
