//! Adornments for the magic-sets rewriting of rule invocations: which
//! arguments of an invocation are bound ('b') and which are free ('f'), and
//! the names of the magic predicates they give.
use vstd::prelude::*;
use crate::query::datalog::evaluator::names_of;
use crate::query::datalog::rules::{
    RuleRegistry, distinct_predicates, group_index, lemma_rules_for_index, rules_for, rules_view, with_rule,
};
use crate::query::datalog::types::{
    ClauseV, DatalogQuery, EdnV, EdnValue, Rule, RuleV, WhereClause, clause_seq_view, clone_clause, clone_edn_values, edn_is_var,
    edn_seq_view,
};
use crate::graph::types::{Value, ValueV};
use crate::ids::{EntityId, uuid_new_v4};
use crate::query::datalog::matcher::{edn_to_entity_id, edn_to_value, spec_edn_to_value, spec_entity_id};
use crate::text::{concat2, concat3, push_str, string_from_chars, sub_slice, to_owned_string};

verus! {

/// Returns true if at least one position in the adornment is bound.
pub fn has_bound_arg(adornment: &[char]) -> (r: bool)
    ensures
        r == adornment@.contains('b'),
{
    let mut i: usize = 0;
    while i < adornment.len()
        invariant
            i <= adornment.len(),
            forall|j: int| 0 <= j < i ==> adornment@[j] != 'b',
        decreases adornment.len() - i,
    {
        if adornment[i] == 'b' {
            return true;
        }
        i = i + 1;
    }
    false
}

/// Convert adornment to string: ['b','f'] → "bf".
pub fn adornment_string(adornment: &[char]) -> (r: String)
    ensures
        r@ == adornment@,
{
    string_from_chars(adornment)
}

/// The name of the magic predicate of `pred` under adornment `ad`.
pub open spec fn magic_name(pred: Seq<char>, ad: Seq<char>) -> Seq<char> {
    "__magic_"@ + pred + "_"@ + ad
}

/// Magic predicate name: "__magic_ancestor_bf".
pub fn magic_pred_name(pred: &str, adornment: &[char]) -> (r: String)
    ensures
        r@ == magic_name(pred@, adornment@),
{
    let mut s = concat3("__magic_", pred, "_");
    let a = adornment_string(adornment);
    push_str(&mut s, a.as_str());
    s
}

/// The adornment of one argument: a literal, or a variable grounded by an
/// earlier pattern, is bound.
pub open spec fn adorn_arg(a: EdnV, grounded: Set<Seq<char>>) -> char {
    if edn_is_var(a) {
        if grounded.contains(a->Symbol_0) {
            'b'
        } else {
            'f'
        }
    } else {
        'b'
    }
}

/// The variables grounded by a pattern component.
pub open spec fn grounds(e: EdnV, g: Set<Seq<char>>) -> Set<Seq<char>> {
    if edn_is_var(e) {
        g.insert(e->Symbol_0)
    } else {
        g
    }
}

/// After the first `k` clauses: the grounded variables, and each invoked
/// predicate with the adornment of its first invocation (in order of first
/// invocation).
pub open spec fn adorn_scan(cs: Seq<ClauseV>, k: int) -> (Set<Seq<char>>, Seq<(Seq<char>, Seq<char>)>)
    decreases k,
{
    if k <= 0 {
        (Set::empty(), seq![])
    } else {
        let (g, ads) = adorn_scan(cs, k - 1);
        match cs[k - 1] {
            ClauseV::Pattern(p) => (grounds(p.value, grounds(p.entity, g)), ads),
            ClauseV::RuleInvocation { predicate, args } => if exists|i: int|
                0 <= i < ads.len() && ads[i].0 == predicate {
                (g, ads)
            } else {
                (g, ads.push((predicate, args.map_values(|a: EdnV| adorn_arg(a, g)))))
            },
            _ => (g, ads),
        }
    }
}

/// Classify each arg in rule invocations as bound ('b') or free ('f'):
/// a single left-to-right pass in which a pattern grounds the variables in
/// its entity and value positions. Each predicate keeps the adornment of
/// its first invocation.
pub fn compute_query_adornments(where_clauses: &Vec<WhereClause>) -> (r: Vec<(String, Vec<char>)>)
    ensures
        r@.map_values(|x: (String, Vec<char>)| (x.0@, x.1@)) == adorn_scan(
            clause_seq_view(where_clauses@),
            where_clauses@.len() as int,
        ).1,
{
    let ghost cv = clause_seq_view(where_clauses@);
    let mut grounded: Vec<String> = Vec::new();
    let mut adornments: Vec<(String, Vec<char>)> = Vec::new();
    let mut i: usize = 0;
    assert(adornments@.map_values(|x: (String, Vec<char>)| (x.0@, x.1@)) =~= adorn_scan(cv, 0).1);
    assert(names_of(grounded@).to_set() =~= adorn_scan(cv, 0).0);
    while i < where_clauses.len()
        invariant
            i <= where_clauses.len(),
            cv == clause_seq_view(where_clauses@),
            names_of(grounded@).to_set() == adorn_scan(cv, i as int).0,
            adornments@.map_values(|x: (String, Vec<char>)| (x.0@, x.1@)) == adorn_scan(cv, i as int).1,
        decreases where_clauses.len() - i,
    {
        assert(cv[i as int] == where_clauses@[i as int]@);
        let ghost g0 = names_of(grounded@);
        let ghost a0 = adornments@.map_values(|x: (String, Vec<char>)| (x.0@, x.1@));
        match &where_clauses[i] {
            WhereClause::Pattern(p) => {
                ground_var(&mut grounded, &p.entity);
                ground_var(&mut grounded, &p.value);
            },
            WhereClause::RuleInvocation { predicate, args } => {
                let mut known = false;
                let mut k: usize = 0;
                while k < adornments.len()
                    invariant
                        k <= adornments.len(),
                        a0 == adornments@.map_values(|x: (String, Vec<char>)| (x.0@, x.1@)),
                        known == exists|j: int| 0 <= j < k && a0[j].0 == predicate@,
                    decreases adornments.len() - k,
                {
                    assert(a0[k as int] == (adornments@[k as int].0@, adornments@[k as int].1@));
                    if crate::text::str_is(adornments[k].0.as_str(), predicate.as_str()) {
                        known = true;
                    }
                    k = k + 1;
                }
                if !known {
                    let ghost g = names_of(grounded@).to_set();
                    let ad = adorn_args(args, &grounded);
                    adornments.push((predicate.clone(), ad));
                    assert(adornments@.map_values(|x: (String, Vec<char>)| (x.0@, x.1@)) =~= a0.push(
                        (predicate@, edn_seq_view(args@).map_values(|a: EdnV| adorn_arg(a, g))),
                    ));
                }
            },
            _ => {},
        }
        i = i + 1;
    }
    adornments
}

/// The adornments as (predicate, adornment) pairs.
pub open spec fn ads_view(v: Seq<(String, Vec<char>)>) -> Seq<(Seq<char>, Seq<char>)> {
    v.map_values(|x: (String, Vec<char>)| (x.0@, x.1@))
}

/// The position of the first entry for predicate `p`, if any.
pub open spec fn ad_index(ads: Seq<(Seq<char>, Seq<char>)>, p: Seq<char>) -> Option<int> {
    if exists|i: int| 0 <= i < ads.len() && ads[i].0 == p && forall|j: int| 0 <= j < i ==> ads[j].0 != p {
        Some(choose|i: int| 0 <= i < ads.len() && ads[i].0 == p && forall|j: int| 0 <= j < i ==> ads[j].0 != p)
    } else {
        None
    }
}

/// The adornment recorded for predicate `p`, if any (its first entry).
pub open spec fn lookup_ad(ads: Seq<(Seq<char>, Seq<char>)>, p: Seq<char>) -> Option<Seq<char>> {
    match ad_index(ads, p) {
        Some(i) => Some(ads[i].1),
        None => None,
    }
}

/// Looks up the adornment recorded for `p`.
pub fn find_adornment<'a>(ads: &'a Vec<(String, Vec<char>)>, p: &str) -> (r: Option<&'a Vec<char>>)
    ensures
        match r {
            Some(a) => lookup_ad(ads_view(ads@), p@) == Some(a@),
            None => lookup_ad(ads_view(ads@), p@) is None,
        },
{
    let ghost av = ads_view(ads@);
    let mut i: usize = 0;
    while i < ads.len()
        invariant
            i <= ads.len(),
            av == ads_view(ads@),
            forall|j: int| 0 <= j < i ==> av[j].0 != p@,
        decreases ads.len() - i,
    {
        if crate::text::str_is(ads[i].0.as_str(), p) {
            proof {
                assert(av[i as int].0 == p@);
                let k = choose|k: int| 0 <= k < av.len() && av[k].0 == p@ && forall|j: int| 0 <= j < k ==> av[j].0 != p@;
                if k < i {
                    assert(av[k].0 != p@);
                }
                if i < k {
                    assert(av[i as int].0 != p@);
                }
                assert(k == i);
            }
            return Some(&ads[i].1);
        }
        i = i + 1;
    }
    None
}

/// The arguments at the bound positions of `ad`, position `i` of `ad` taken
/// from `args[i + off]` (positions past the end of `args` are skipped).
pub open spec fn bound_args(ad: Seq<char>, args: Seq<EdnV>, off: int) -> Seq<EdnV>
    decreases ad.len(),
{
    if ad.len() == 0 {
        seq![]
    } else {
        let prev = bound_args(ad.drop_last(), args, off);
        let i = ad.len() - 1 + off;
        if ad.last() == 'b' && 0 <= i < args.len() {
            prev.push(args[i])
        } else {
            prev
        }
    }
}

/// The values at the bound positions of `ad` (see [`bound_args`]).
fn select_bound(ad: &[char], args: &Vec<EdnValue>, off: usize) -> (r: Vec<EdnValue>)
    requires
        off <= 1,
    ensures
        edn_seq_view(r@) == bound_args(ad@, edn_seq_view(args@), off as int),
{
    let ghost av = edn_seq_view(args@);
    let mut out: Vec<EdnValue> = Vec::new();
    let mut i: usize = 0;
    assert(edn_seq_view(out@) =~= bound_args(ad@.subrange(0, 0), av, off as int));
    while i < ad.len()
        invariant
            i <= ad.len(),
            off <= 1,
            av == edn_seq_view(args@),
            edn_seq_view(out@) == bound_args(ad@.subrange(0, i as int), av, off as int),
        decreases ad.len() - i,
    {
        let ghost before = out@;
        assert(ad@.subrange(0, i + 1).drop_last() =~= ad@.subrange(0, i as int));
        if ad[i] == 'b' && i + off < args.len() {
            let x = args[i + off].clone();
            out.push(x);
            assert(edn_seq_view(out@) =~= edn_seq_view(before).push(av[i + off]));
        }
        i = i + 1;
    }
    assert(ad@.subrange(0, ad@.len() as int) =~= ad@);
    out
}

/// Whether a rule body holds a negation (`not` or `not-join`).
pub open spec fn has_negation(body: Seq<ClauseV>) -> bool {
    exists|i: int| 0 <= i < body.len() && (body[i] is Not || body[i] is NotJoin)
}

fn body_has_negation(body: &Vec<WhereClause>) -> (r: bool)
    ensures
        r == has_negation(clause_seq_view(body@)),
{
    let ghost cv = clause_seq_view(body@);
    let mut i: usize = 0;
    while i < body.len()
        invariant
            i <= body.len(),
            cv == clause_seq_view(body@),
            forall|j: int| 0 <= j < i ==> !(cv[j] is Not || cv[j] is NotJoin),
        decreases body.len() - i,
    {
        assert(cv[i as int] == body@[i as int]@);
        match &body[i] {
            WhereClause::Not(_) => return true,
            WhereClause::NotJoin { .. } => return true,
            _ => {},
        }
        i = i + 1;
    }
    false
}

/// The magic guard of a rule of `pred` under adornment `ad`: an invocation
/// of the magic predicate on the head arguments at the bound positions.
pub open spec fn magic_guard(rule: RuleV, pred: Seq<char>, ad: Seq<char>) -> ClauseV {
    ClauseV::RuleInvocation { predicate: magic_name(pred, ad), args: bound_args(ad, rule.head, 1) }
}

/// A rule with its magic guard prepended; a rule with a negation is kept as
/// it is.
pub open spec fn guarded_rule(rule: RuleV, pred: Seq<char>, ad: Seq<char>) -> RuleV {
    if has_negation(rule.body) {
        rule
    } else {
        RuleV { head: rule.head, body: seq![magic_guard(rule, pred, ad)] + rule.body }
    }
}

fn guard_clause(rule: &Rule, predicate: &str, adornment: &[char]) -> (r: WhereClause)
    ensures
        r@ == magic_guard(rule@, predicate@, adornment@),
{
    let name = magic_pred_name(predicate, adornment);
    let args = select_bound(adornment, &rule.head, 1);
    WhereClause::RuleInvocation { predicate: name, args }
}

/// Prepend a magic-predicate guard to a positive rule's body.
/// Rules containing Not/NotJoin are returned unchanged.
pub fn inject_magic_guard(rule: &Rule, predicate: &str, adornment: &[char]) -> (r: Rule)
    ensures
        r@ == guarded_rule(rule@, predicate@, adornment@),
{
    if body_has_negation(&rule.body) {
        return rule.clone();
    }
    let guard = guard_clause(rule, predicate, adornment);
    let mut body: Vec<WhereClause> = Vec::new();
    body.push(guard);
    let mut i: usize = 0;
    while i < rule.body.len()
        invariant
            i <= rule.body.len(),
            clause_seq_view(body@) == seq![magic_guard(rule@, predicate@, adornment@)]
                + clause_seq_view(rule.body@).subrange(0, i as int),
        decreases rule.body.len() - i,
    {
        let ghost before = clause_seq_view(body@);
        body.push(clone_clause(&rule.body[i]));
        assert(clause_seq_view(body@) =~= before.push(rule.body@[i as int]@));
        assert(clause_seq_view(rule.body@).subrange(0, i + 1) =~= clause_seq_view(rule.body@).subrange(0, i as int).push(
            rule.body@[i as int]@,
        ));
        i = i + 1;
    }
    assert(clause_seq_view(rule.body@).subrange(0, rule.body@.len() as int) =~= clause_seq_view(rule.body@));
    Rule { head: clone_edn_values(&rule.head), body }
}

/// The clauses of `s` that are not rule invocations, in order.
pub open spec fn non_invocations(s: Seq<ClauseV>) -> Seq<ClauseV>
    decreases s.len(),
{
    if s.len() == 0 {
        seq![]
    } else if s.last() is RuleInvocation {
        non_invocations(s.drop_last())
    } else {
        non_invocations(s.drop_last()).push(s.last())
    }
}

/// The propagation rules for the first `k` body clauses: for each invocation
/// of a predicate whose adornment has a bound position, a rule of its magic
/// predicate whose head holds the invocation's bound arguments and whose body
/// is the guard followed by the non-invocation clauses before it.
pub open spec fn propagation_scan(body: Seq<ClauseV>, k: int, guard: ClauseV, ads: Seq<(Seq<char>, Seq<char>)>) -> Seq<
    (Seq<char>, RuleV),
>
    decreases k,
{
    if k <= 0 {
        seq![]
    } else {
        let prev = propagation_scan(body, k - 1, guard, ads);
        match body[k - 1] {
            ClauseV::RuleInvocation { predicate, args } => match lookup_ad(ads, predicate) {
                Some(cad) => if cad.contains('b') {
                    let m = magic_name(predicate, cad);
                    prev.push(
                        (
                            m,
                            RuleV {
                                head: seq![EdnV::Symbol(m)] + bound_args(cad, args, 0),
                                body: seq![guard] + non_invocations(body.subrange(0, k - 1)),
                            },
                        ),
                    )
                } else {
                    prev
                },
                None => prev,
            },
            _ => prev,
        }
    }
}

/// The magic propagation rules of a rule of `pred`: none for a rule with a
/// negation or for a predicate without an adornment.
pub open spec fn propagation_rules(rule: RuleV, pred: Seq<char>, ads: Seq<(Seq<char>, Seq<char>)>) -> Seq<
    (Seq<char>, RuleV),
> {
    if has_negation(rule.body) {
        seq![]
    } else {
        match lookup_ad(ads, pred) {
            None => seq![],
            Some(ad) => propagation_scan(rule.body, rule.body.len() as int, magic_guard(rule, pred, ad), ads),
        }
    }
}

/// The models of (predicate, rule) pairs.
pub open spec fn named_rules_view(v: Seq<(String, Rule)>) -> Seq<(Seq<char>, RuleV)> {
    v.map_values(|x: (String, Rule)| (x.0@, x.1@))
}

/// Build magic propagation rules for adorned recursive calls within a rule body.
///
/// For each `RuleInvocation` in the body that calls an adorned predicate,
/// emits a rule: (magic-p-ad ?bound_arg) :- (magic-p-ad ?head_bound_var) <preceding non-invocation clauses>
pub fn build_propagation_rules(rule: &Rule, predicate: &str, adorned: &Vec<(String, Vec<char>)>) -> (r: Vec<
    (String, Rule),
>)
    ensures
        named_rules_view(r@) == propagation_rules(rule@, predicate@, ads_view(adorned@)),
{
    let mut result: Vec<(String, Rule)> = Vec::new();
    if body_has_negation(&rule.body) {
        assert(named_rules_view(result@) =~= Seq::<(Seq<char>, RuleV)>::empty());
        return result;
    }
    let adornment = match find_adornment(adorned, predicate) {
        Some(a) => a,
        None => {
            assert(named_rules_view(result@) =~= Seq::<(Seq<char>, RuleV)>::empty());
            return result;
        },
    };
    let ghost ads = ads_view(adorned@);
    let ghost bv = clause_seq_view(rule.body@);
    let guard = guard_clause(rule, predicate, adornment.as_slice());
    let ghost g = guard@;
    let mut preceding: Vec<WhereClause> = Vec::new();
    let mut i: usize = 0;
    assert(named_rules_view(result@) =~= propagation_scan(bv, 0, g, ads));
    assert(clause_seq_view(preceding@) =~= non_invocations(bv.subrange(0, 0)));
    while i < rule.body.len()
        invariant
            i <= rule.body.len(),
            ads == ads_view(adorned@),
            bv == clause_seq_view(rule.body@),
            g == guard@,
            named_rules_view(result@) == propagation_scan(bv, i as int, g, ads),
            clause_seq_view(preceding@) == non_invocations(bv.subrange(0, i as int)),
        decreases rule.body.len() - i,
    {
        assert(bv[i as int] == rule.body@[i as int]@);
        assert(bv.subrange(0, i + 1).drop_last() =~= bv.subrange(0, i as int));
        let ghost before = named_rules_view(result@);
        match &rule.body[i] {
            WhereClause::RuleInvocation { predicate: called, args } => {
                match find_adornment(adorned, called.as_str()) {
                    Some(cad) => {
                        if has_bound_arg(cad.as_slice()) {
                            let name = magic_pred_name(called.as_str(), cad.as_slice());
                            let mut head: Vec<EdnValue> = Vec::new();
                            head.push(EdnValue::Symbol(name.clone()));
                            let bound = select_bound(cad.as_slice(), args, 0);
                            let mut k: usize = 0;
                            while k < bound.len()
                                invariant
                                    k <= bound.len(),
                                    edn_seq_view(head@) == seq![EdnV::Symbol(name@)] + edn_seq_view(bound@).subrange(
                                        0,
                                        k as int,
                                    ),
                                decreases bound.len() - k,
                            {
                                let ghost hb = edn_seq_view(head@);
                                head.push(bound[k].clone());
                                assert(edn_seq_view(head@) =~= hb.push(bound@[k as int]@));
                                assert(edn_seq_view(bound@).subrange(0, k + 1) =~= edn_seq_view(bound@).subrange(
                                    0,
                                    k as int,
                                ).push(bound@[k as int]@));
                                k = k + 1;
                            }
                            assert(edn_seq_view(bound@).subrange(0, bound@.len() as int) =~= edn_seq_view(bound@));
                            let mut body: Vec<WhereClause> = Vec::new();
                            body.push(clone_clause(&guard));
                            let mut q: usize = 0;
                            while q < preceding.len()
                                invariant
                                    q <= preceding.len(),
                                    clause_seq_view(body@) == seq![g] + clause_seq_view(preceding@).subrange(0, q as int),
                                decreases preceding.len() - q,
                            {
                                let ghost bb = clause_seq_view(body@);
                                body.push(clone_clause(&preceding[q]));
                                assert(clause_seq_view(body@) =~= bb.push(preceding@[q as int]@));
                                assert(clause_seq_view(preceding@).subrange(0, q + 1) =~= clause_seq_view(
                                    preceding@,
                                ).subrange(0, q as int).push(preceding@[q as int]@));
                                q = q + 1;
                            }
                            assert(clause_seq_view(preceding@).subrange(0, preceding@.len() as int) =~= clause_seq_view(
                                preceding@,
                            ));
                            result.push((name, Rule { head, body }));
                            assert(named_rules_view(result@) =~= propagation_scan(bv, i + 1, g, ads));
                        } else {
                            assert(named_rules_view(result@) =~= propagation_scan(bv, i + 1, g, ads));
                        }
                    },
                    None => {
                        assert(named_rules_view(result@) =~= propagation_scan(bv, i + 1, g, ads));
                    },
                }
                assert(non_invocations(bv.subrange(0, i + 1)) == non_invocations(bv.subrange(0, i as int)));
            },
            other => {
                let ghost pv = clause_seq_view(preceding@);
                preceding.push(clone_clause(other));
                assert(clause_seq_view(preceding@) =~= pv.push(bv[i as int]));
                assert(named_rules_view(result@) =~= propagation_scan(bv, i + 1, g, ads));
            },
        }
        i = i + 1;
    }
    result
}

/// A seed fact as a model: its entity (`None` for a fresh carrier entity,
/// whose identifier is random), its attribute and its value.
pub type SeedV = (Option<u128>, Seq<char>, ValueV);

/// The seed fact of one query clause, if it gives one: an invocation of an
/// adorned predicate with a bound position. Its attribute is
/// `:` + the magic predicate name. When the first position is bound, the
/// entity is the first argument's and the value `true`; when only the second
/// is, a fresh carrier entity holds the second argument's value.
pub open spec fn seed_of(c: ClauseV, ads: Seq<(Seq<char>, Seq<char>)>) -> Option<SeedV> {
    match c {
        ClauseV::RuleInvocation { predicate, args } => match lookup_ad(ads, predicate) {
            Some(ad) => if !ad.contains('b') {
                None
            } else {
                let attr = ":"@ + magic_name(predicate, ad);
                if ad.len() > 0 && ad[0] == 'b' {
                    if args.len() > 0 {
                        match spec_entity_id(args[0]) {
                            Some(e) => Some((Some(e), attr, ValueV::Boolean(true))),
                            None => None,
                        }
                    } else {
                        None
                    }
                } else if ad.len() > 1 && ad[1] == 'b' {
                    if args.len() > 1 {
                        match spec_edn_to_value(args[1]) {
                            Some(v) => Some((None, attr, v)),
                            None => None,
                        }
                    } else {
                        None
                    }
                } else {
                    None
                }
            },
            None => None,
        },
        _ => None,
    }
}

/// The seed facts of the first `k` clauses, in order.
pub open spec fn seed_scan(cs: Seq<ClauseV>, k: int, ads: Seq<(Seq<char>, Seq<char>)>) -> Seq<SeedV>
    decreases k,
{
    if k <= 0 {
        seq![]
    } else {
        let prev = seed_scan(cs, k - 1, ads);
        match seed_of(cs[k - 1], ads) {
            Some(x) => prev.push(x),
            None => prev,
        }
    }
}

/// Whether the seed facts `r` are the modelled seeds `s`: same attributes and
/// values in the same order, and the given entity wherever one is given.
pub open spec fn seeds_match(r: Seq<(EntityId, String, Value)>, s: Seq<SeedV>) -> bool {
    &&& r.len() == s.len()
    &&& forall|i: int|
        0 <= i < r.len() ==> {
            &&& #[trigger] r[i].1@ == s[i].1
            &&& r[i].2@ == s[i].2
            &&& (s[i].0 matches Some(e) ==> r[i].0 == e)
        }
}

/// Build seed facts for adorned rule invocations with at least one bound arg.
///
/// Encoding:
///   arg0 bound: entity = edn_to_entity_id(arg0), attr = ":__magic_p_ad", value = Boolean(true)
///   arg1-only bound (fb): entity = a fresh random identifier (ephemeral carrier), value = edn_to_value(arg1)
pub fn build_seed_facts(where_clauses: &Vec<WhereClause>, adornments: &Vec<(String, Vec<char>)>) -> (r: Vec<
    (EntityId, String, Value),
>)
    ensures
        seeds_match(r@, seed_scan(clause_seq_view(where_clauses@), where_clauses@.len() as int, ads_view(adornments@))),
{
    let ghost cv = clause_seq_view(where_clauses@);
    let ghost ads = ads_view(adornments@);
    let mut seeds: Vec<(EntityId, String, Value)> = Vec::new();
    let mut i: usize = 0;
    while i < where_clauses.len()
        invariant
            i <= where_clauses.len(),
            cv == clause_seq_view(where_clauses@),
            ads == ads_view(adornments@),
            seeds_match(seeds@, seed_scan(cv, i as int, ads)),
        decreases where_clauses.len() - i,
    {
        assert(cv[i as int] == where_clauses@[i as int]@);
        let ghost before = seeds@;
        let ghost sv = seed_scan(cv, i as int, ads);
        if let WhereClause::RuleInvocation { predicate, args } = &where_clauses[i] {
            if let Some(adornment) = find_adornment(adornments, predicate.as_str()) {
                if has_bound_arg(adornment.as_slice()) {
                    let name = magic_pred_name(predicate.as_str(), adornment.as_slice());
                    let magic_attr = concat2(":", name.as_str());
                    if adornment.len() > 0 && adornment[0] == 'b' {
                        if args.len() > 0 {
                            if let Ok(entity) = edn_to_entity_id(&args[0]) {
                                seeds.push((entity, magic_attr, Value::Boolean(true)));
                                assert(seeds@[seeds@.len() - 1].1@ == seed_scan(cv, i + 1, ads)[seeds@.len() - 1].1);
                            }
                        }
                    } else if adornment.len() > 1 && adornment[1] == 'b' {
                        if args.len() > 1 {
                            if let Ok(value) = edn_to_value(&args[1]) {
                                let carrier = uuid_new_v4();
                                seeds.push((carrier, magic_attr, value));
                                assert(seeds@[seeds@.len() - 1].1@ == seed_scan(cv, i + 1, ads)[seeds@.len() - 1].1);
                            }
                        }
                    }
                }
            }
        }
        proof {
            let sn = seed_scan(cv, i + 1, ads);
            assert forall|j: int| 0 <= j < seeds@.len() implies {
                &&& #[trigger] seeds@[j].1@ == sn[j].1
                &&& seeds@[j].2@ == sn[j].2
                &&& (sn[j].0 matches Some(e) ==> seeds@[j].0 == e)
            } by {
                if j < before.len() {
                    assert(seeds@[j] == before[j]);
                    assert(sn[j] == sv[j]);
                }
            }
        }
        i = i + 1;
    }
    seeds
}

/// Whether some entry is for predicate `p`.
pub open spec fn has_key(ads: Seq<(Seq<char>, Seq<char>)>, p: Seq<char>) -> bool {
    exists|k: int| 0 <= k < ads.len() && ads[k].0 == p
}

/// Whether no predicate has two entries.
pub open spec fn distinct_keys(ads: Seq<(Seq<char>, Seq<char>)>) -> bool {
    forall|i: int, j: int| 0 <= i < j < ads.len() ==> ads[i].0 != ads[j].0
}

/// The variables grounded by the head of a rule of an adorned predicate:
/// the variables at the first `n` bound positions of the adornment.
pub open spec fn head_grounded(head: Seq<EdnV>, ad: Seq<char>, n: int) -> Set<Seq<char>>
    decreases n,
{
    if n <= 0 {
        Set::empty()
    } else {
        let g = head_grounded(head, ad, n - 1);
        if ad[n - 1] == 'b' && n < head.len() {
            grounds(head[n], g)
        } else {
            g
        }
    }
}

/// `g` with the variables among the first `n` arguments.
pub open spec fn args_grounded(args: Seq<EdnV>, n: int, g: Set<Seq<char>>) -> Set<Seq<char>>
    decreases n,
{
    if n <= 0 {
        g
    } else {
        grounds(args[n - 1], args_grounded(args, n - 1, g))
    }
}

/// The variables grounded after the first `k` clauses of a body, from `g0`:
/// a pattern grounds its entity and value variables, an invocation all of
/// its argument variables.
pub open spec fn body_grounded(body: Seq<ClauseV>, k: int, g0: Set<Seq<char>>) -> Set<Seq<char>>
    decreases k,
{
    if k <= 0 {
        g0
    } else {
        let g = body_grounded(body, k - 1, g0);
        match body[k - 1] {
            ClauseV::Pattern(p) => grounds(p.value, grounds(p.entity, g)),
            ClauseV::RuleInvocation { args, .. } => args_grounded(args, args.len() as int, g),
            _ => g,
        }
    }
}

/// The adornment of the invocation at clause `j` of a rule of a predicate
/// adorned with `ad`.
pub open spec fn call_adornment(rule: RuleV, ad: Seq<char>, j: int) -> Seq<char> {
    match rule.body[j] {
        ClauseV::RuleInvocation { args, .. } => {
            let g = body_grounded(rule.body, j, head_grounded(rule.head, ad, ad.len() as int));
            args.map_values(|a: EdnV| adorn_arg(a, g))
        },
        _ => seq![],
    }
}

/// The demand that clause `j` of rule `r` of predicate `p` (adorned with
/// `ad`) makes: the invoked predicate and its adornment, when the rule has no
/// negation, the clause is an invocation and the adornment has a bound
/// position.
pub open spec fn call_at(groups: Seq<(Seq<char>, Seq<RuleV>)>, p: Seq<char>, ad: Seq<char>, r: int, j: int) -> Option<
    (Seq<char>, Seq<char>),
> {
    let rs = rules_for(groups, p);
    if 0 <= r < rs.len() && !has_negation(rs[r].body) && 0 <= j < rs[r].body.len() {
        match rs[r].body[j] {
            ClauseV::RuleInvocation { predicate, .. } => if call_adornment(rs[r], ad, j).contains('b') {
                Some((predicate, call_adornment(rs[r], ad, j)))
            } else {
                None
            },
            _ => None,
        }
    } else {
        None
    }
}

/// Whether an entry of `ads` demands predicate `q` with adornment `a`.
pub open spec fn demands(ads: Seq<(Seq<char>, Seq<char>)>, groups: Seq<(Seq<char>, Seq<RuleV>)>, q: Seq<char>, a: Seq<
    char,
>) -> bool {
    exists|i: int, r: int, j: int| 0 <= i < ads.len() && #[trigger] call_at(groups, ads[i].0, ads[i].1, r, j) == Some((q, a))
}

/// Whether every demand of the entry (`p`, `ad`) names a predicate of `ads`.
pub open spec fn entry_covered(ads: Seq<(Seq<char>, Seq<char>)>, groups: Seq<(Seq<char>, Seq<RuleV>)>, p: Seq<char>, ad: Seq<
    char,
>) -> bool {
    forall|r: int, j: int| #[trigger]
        call_at(groups, p, ad, r, j) matches Some(d) ==> has_key(ads, d.0)
}

/// The predicates invoked in a body, in order.
pub open spec fn clause_names(body: Seq<ClauseV>) -> Seq<Seq<char>>
    decreases body.len(),
{
    if body.len() == 0 {
        seq![]
    } else {
        let prev = clause_names(body.drop_last());
        match body.last() {
            ClauseV::RuleInvocation { predicate, .. } => prev.push(predicate),
            _ => prev,
        }
    }
}

/// The predicates invoked in the bodies of some rules.
pub open spec fn rules_names(rs: Seq<RuleV>) -> Seq<Seq<char>>
    decreases rs.len(),
{
    if rs.len() == 0 {
        seq![]
    } else {
        rules_names(rs.drop_last()) + clause_names(rs.last().body)
    }
}

/// The predicates invoked in the bodies of the rules of all groups.
pub open spec fn groups_names(gs: Seq<(Seq<char>, Seq<RuleV>)>) -> Seq<Seq<char>>
    decreases gs.len(),
{
    if gs.len() == 0 {
        seq![]
    } else {
        groups_names(gs.drop_last()) + rules_names(gs.last().1)
    }
}

proof fn lemma_clause_names(body: Seq<ClauseV>, j: int)
    requires
        0 <= j < body.len(),
        body[j] is RuleInvocation,
    ensures
        clause_names(body).contains(body[j]->RuleInvocation_predicate),
    decreases body.len(),
{
    if j == body.len() - 1 {
        assert(clause_names(body).last() == body[j]->RuleInvocation_predicate);
    } else {
        lemma_clause_names(body.drop_last(), j);
        let w = choose|w: int| 0 <= w < clause_names(body.drop_last()).len() && clause_names(body.drop_last())[w]
            == body[j]->RuleInvocation_predicate;
        assert(clause_names(body)[w] == clause_names(body.drop_last())[w]);
    }
}

proof fn lemma_rules_names(rs: Seq<RuleV>, r: int, q: Seq<char>)
    requires
        0 <= r < rs.len(),
        clause_names(rs[r].body).contains(q),
    ensures
        rules_names(rs).contains(q),
    decreases rs.len(),
{
    let w = choose|w: int| 0 <= w < clause_names(rs[r].body).len() && clause_names(rs[r].body)[w] == q;
    if r == rs.len() - 1 {
        assert(rules_names(rs)[rules_names(rs.drop_last()).len() + w] == q);
    } else {
        lemma_rules_names(rs.drop_last(), r, q);
        let v = choose|v: int| 0 <= v < rules_names(rs.drop_last()).len() && rules_names(rs.drop_last())[v] == q;
        assert(rules_names(rs)[v] == q);
    }
}

proof fn lemma_groups_names(gs: Seq<(Seq<char>, Seq<RuleV>)>, g: int, q: Seq<char>)
    requires
        0 <= g < gs.len(),
        rules_names(gs[g].1).contains(q),
    ensures
        groups_names(gs).contains(q),
    decreases gs.len(),
{
    let w = choose|w: int| 0 <= w < rules_names(gs[g].1).len() && rules_names(gs[g].1)[w] == q;
    if g == gs.len() - 1 {
        assert(groups_names(gs)[groups_names(gs.drop_last()).len() + w] == q);
    } else {
        lemma_groups_names(gs.drop_last(), g, q);
        let v = choose|v: int| 0 <= v < groups_names(gs.drop_last()).len() && groups_names(gs.drop_last())[v] == q;
        assert(groups_names(gs)[v] == q);
    }
}

/// A demanded predicate is invoked somewhere in the rules.
proof fn lemma_demand_named(groups: Seq<(Seq<char>, Seq<RuleV>)>, p: Seq<char>, ad: Seq<char>, r: int, j: int)
    requires
        call_at(groups, p, ad, r, j) is Some,
    ensures
        groups_names(groups).contains(call_at(groups, p, ad, r, j)->Some_0.0),
{
    let gi = group_index(groups, p)->Some_0;
    let rs = rules_for(groups, p);
    lemma_clause_names(rs[r].body, j);
    lemma_rules_names(rs, r, rs[r].body[j]->RuleInvocation_predicate);
    lemma_groups_names(groups, gi, rs[r].body[j]->RuleInvocation_predicate);
}

/// At most as many distinct keys as invoked names were added.
proof fn lemma_added_bound(ads: Seq<(Seq<char>, Seq<char>)>, base: int, names: Seq<Seq<char>>)
    requires
        0 <= base <= ads.len(),
        distinct_keys(ads),
        forall|k: int| base <= k < ads.len() ==> names.contains(#[trigger] ads[k].0),
    ensures
        ads.len() - base <= names.len(),
{
    let ks = ads.subrange(base, ads.len() as int).map_values(|x: (Seq<char>, Seq<char>)| x.0);
    assert(ks.no_duplicates()) by {
        assert forall|i: int, j: int| 0 <= i < ks.len() && 0 <= j < ks.len() && i != j implies ks[i] != ks[j] by {
            if i < j {
                assert(ads[base + i].0 != ads[base + j].0);
            } else {
                assert(ads[base + j].0 != ads[base + i].0);
            }
        }
    }
    ks.unique_seq_to_set();
    assert(ks.to_set().subset_of(names.to_set())) by {
        assert forall|q: Seq<char>| ks.to_set().contains(q) implies names.to_set().contains(q) by {
            let i = choose|i: int| 0 <= i < ks.len() && ks[i] == q;
            assert(ads[base + i].0 == q);
        }
    }
    vstd::seq_lib::seq_to_set_is_finite(names);
    vstd::set_lib::lemma_len_subset(ks.to_set(), names.to_set());
    names.lemma_cardinality_of_set();
}

proof fn lemma_push_keeps_keys(ads: Seq<(Seq<char>, Seq<char>)>, x: (Seq<char>, Seq<char>))
    ensures
        forall|q: Seq<char>| #![trigger has_key(ads, q)] #![trigger has_key(ads.push(x), q)]
            has_key(ads, q) ==> has_key(ads.push(x), q),
        has_key(ads.push(x), x.0),
{
    assert forall|q: Seq<char>| has_key(ads, q) implies has_key(ads.push(x), q) by {
        let k = choose|k: int| 0 <= k < ads.len() && ads[k].0 == q;
        assert(ads.push(x)[k] == ads[k]);
    }
    assert(ads.push(x)[ads.len() as int] == x);
}

/// Whether the predicate `p` has an entry.
pub fn has_adornment(ads: &Vec<(String, Vec<char>)>, p: &str) -> (r: bool)
    ensures
        r == has_key(ads_view(ads@), p@),
{
    let ghost av = ads_view(ads@);
    let mut i: usize = 0;
    while i < ads.len()
        invariant
            i <= ads.len(),
            av == ads_view(ads@),
            forall|j: int| 0 <= j < i ==> av[j].0 != p@,
        decreases ads.len() - i,
    {
        if crate::text::str_is(ads[i].0.as_str(), p) {
            assert(av[i as int].0 == p@);
            return true;
        }
        i = i + 1;
    }
    false
}

/// Records the variable of `e`, if it is one, as grounded.
fn ground_var(grounded: &mut Vec<String>, e: &EdnValue)
    ensures
        names_of(final(grounded)@).to_set() == grounds(e@, names_of(old(grounded)@).to_set()),
{
    if let Some(v) = e.as_variable() {
        let ghost g0 = names_of(grounded@);
        grounded.push(crate::text::to_owned_string(v));
        proof {
            assert(names_of(grounded@) =~= g0.push(v@));
            g0.lemma_push_to_set_commute(v@);
        }
    }
}

/// The adornment of some arguments, given the grounded variables.
fn adorn_args(args: &Vec<EdnValue>, grounded: &Vec<String>) -> (r: Vec<char>)
    ensures
        r@ == edn_seq_view(args@).map_values(|a: EdnV| adorn_arg(a, names_of(grounded@).to_set())),
{
    let ghost g = names_of(grounded@).to_set();
    let mut ad: Vec<char> = Vec::new();
    let mut q: usize = 0;
    while q < args.len()
        invariant
            q <= args.len(),
            g == names_of(grounded@).to_set(),
            ad@.len() == q,
            forall|j: int| 0 <= j < q ==> ad@[j] == adorn_arg(args@[j]@, g),
        decreases args.len() - q,
    {
        let c = if let Some(var) = args[q].as_variable() {
            let mut found = false;
            let mut w: usize = 0;
            while w < grounded.len()
                invariant
                    w <= grounded.len(),
                    found == exists|j: int| 0 <= j < w && grounded@[j]@ == var@,
                decreases grounded.len() - w,
            {
                if crate::text::str_is(grounded[w].as_str(), var) {
                    found = true;
                }
                w = w + 1;
            }
            proof {
                if found {
                    let j = choose|j: int| 0 <= j < grounded@.len() && grounded@[j]@ == var@;
                    assert(names_of(grounded@)[j] == var@);
                }
                if g.contains(var@) {
                    let j = choose|j: int| 0 <= j < names_of(grounded@).len() && names_of(grounded@)[j] == var@;
                    assert(grounded@[j]@ == var@);
                }
            }
            if found {
                'b'
            } else {
                'f'
            }
        } else {
            'b'
        };
        ad.push(c);
        q = q + 1;
    }
    assert(ad@ =~= edn_seq_view(args@).map_values(|a: EdnV| adorn_arg(a, g)));
    ad
}

/// What the adornments keep while they grow from `init`: `init` stays a
/// prefix, no predicate has two entries, and each added entry is demanded
/// by an entry and invoked in the rules (`names`).
pub open spec fn grows_from(
    ads: Seq<(Seq<char>, Seq<char>)>,
    init: Seq<(Seq<char>, Seq<char>)>,
    groups: Seq<(Seq<char>, Seq<RuleV>)>,
    names: Seq<Seq<char>>,
) -> bool {
    &&& ads.len() >= init.len()
    &&& ads.subrange(0, init.len() as int) == init
    &&& distinct_keys(ads)
    &&& forall|k: int| init.len() <= k < ads.len() ==> demands(ads, groups, #[trigger] ads[k].0, ads[k].1)
    &&& forall|k: int| init.len() <= k < ads.len() ==> names.contains(#[trigger] ads[k].0)
}

proof fn lemma_demands_push(
    ads: Seq<(Seq<char>, Seq<char>)>,
    groups: Seq<(Seq<char>, Seq<RuleV>)>,
    x: (Seq<char>, Seq<char>),
    q: Seq<char>,
    a: Seq<char>,
)
    requires
        demands(ads, groups, q, a),
    ensures
        demands(ads.push(x), groups, q, a),
{
    let (i, r, j) = choose|i: int, r: int, j: int| 0 <= i < ads.len() && #[trigger] call_at(groups, ads[i].0, ads[i].1, r, j) == Some((q, a));
    assert(ads.push(x)[i] == ads[i]);
    assert(call_at(groups, ads.push(x)[i].0, ads.push(x)[i].1, r, j) == Some((q, a)));
}

/// Adding a demanded predicate that has no entry keeps what the growth keeps.
proof fn lemma_grows_push(
    ads: Seq<(Seq<char>, Seq<char>)>,
    init: Seq<(Seq<char>, Seq<char>)>,
    groups: Seq<(Seq<char>, Seq<RuleV>)>,
    x: (Seq<char>, Seq<char>),
    i: int,
    r: int,
    j: int,
)
    requires
        grows_from(ads, init, groups, groups_names(groups)),
        !has_key(ads, x.0),
        0 <= i < ads.len(),
        call_at(groups, ads[i].0, ads[i].1, r, j) == Some(x),
    ensures
        grows_from(ads.push(x), init, groups, groups_names(groups)),
{
    let n = ads.push(x);
    assert(n.subrange(0, init.len() as int) =~= ads.subrange(0, init.len() as int));
    assert forall|a: int, b: int| 0 <= a < b < n.len() implies n[a].0 != n[b].0 by {
        if b == ads.len() {
            assert(n[a] == ads[a]);
        }
    }
    assert(n[i] == ads[i]);
    assert(call_at(groups, n[i].0, n[i].1, r, j) == Some(x));
    assert forall|k: int| init.len() <= k < n.len() implies demands(n, groups, #[trigger] n[k].0, n[k].1) by {
        if k < ads.len() {
            assert(n[k] == ads[k]);
            lemma_demands_push(ads, groups, x, ads[k].0, ads[k].1);
        }
    }
    lemma_demand_named(groups, ads[i].0, ads[i].1, r, j);
    assert forall|k: int| init.len() <= k < n.len() implies groups_names(groups).contains(#[trigger] n[k].0) by {
        if k < ads.len() {
            assert(n[k] == ads[k]);
        }
    }
}

fn clone_ads(v: &Vec<(String, Vec<char>)>) -> (r: Vec<(String, Vec<char>)>)
    ensures
        ads_view(r@) == ads_view(v@),
{
    let mut out: Vec<(String, Vec<char>)> = Vec::new();
    let mut i: usize = 0;
    while i < v.len()
        invariant
            i <= v.len(),
            ads_view(out@) == ads_view(v@).subrange(0, i as int),
        decreases v.len() - i,
    {
        let ghost before = ads_view(out@);
        let k = to_owned_string(v[i].0.as_str());
        let a = sub_slice(v[i].1.as_slice(), 0, v[i].1.len());
        assert(a@ =~= v@[i as int].1@);
        out.push((k, a));
        assert(ads_view(out@) =~= before.push(ads_view(v@)[i as int]));
        assert(ads_view(out@) =~= ads_view(v@).subrange(0, i + 1));
        i = i + 1;
    }
    assert(ads_view(v@).subrange(0, v@.len() as int) =~= ads_view(v@));
    out
}

/// Adds, for one rule of the entry `i` (predicate `p` with adornment `ad`),
/// each demanded predicate that has no entry yet.
fn adorn_rule_calls(
    adorned: &mut Vec<(String, Vec<char>)>,
    rule: &Rule,
    ad: &Vec<char>,
    Ghost(init): Ghost<Seq<(Seq<char>, Seq<char>)>>,
    Ghost(groups): Ghost<Seq<(Seq<char>, Seq<RuleV>)>>,
    Ghost(i): Ghost<int>,
    Ghost(p): Ghost<Seq<char>>,
    Ghost(rr): Ghost<int>,
)
    requires
        grows_from(ads_view(old(adorned)@), init, groups, groups_names(groups)),
        0 <= i < old(adorned)@.len(),
        ads_view(old(adorned)@)[i] == (p, ad@),
        0 <= rr < rules_for(groups, p).len(),
        rules_for(groups, p)[rr] == rule@,
    ensures
        grows_from(ads_view(final(adorned)@), init, groups, groups_names(groups)),
        final(adorned)@.len() >= old(adorned)@.len(),
        ads_view(final(adorned)@).subrange(0, old(adorned)@.len() as int) == ads_view(old(adorned)@),
        forall|q: Seq<char>| #[trigger] has_key(ads_view(old(adorned)@), q) ==> has_key(ads_view(final(adorned)@), q),
        forall|j2: int| #[trigger] call_at(groups, p, ad@, rr, j2) matches Some(d) ==> has_key(ads_view(final(adorned)@), d.0),
{
    let ghost a0 = ads_view(adorned@);
    if body_has_negation(&rule.body) {
        assert(a0.subrange(0, a0.len() as int) =~= a0);
        return;
    }
    let mut grounded: Vec<String> = Vec::new();
    let mut h: usize = 0;
    assert(names_of(grounded@).to_set() =~= Set::<Seq<char>>::empty());
    while h < ad.len()
        invariant
            h <= ad@.len(),
            names_of(grounded@).to_set() == head_grounded(edn_seq_view(rule.head@), ad@, h as int),
        decreases ad.len() - h,
    {
        if ad[h] == 'b' && h + 1 < rule.head.len() {
            ground_var(&mut grounded, &rule.head[h + 1]);
        }
        h = h + 1;
    }
    let ghost hg = head_grounded(rule@.head, ad@, ad@.len() as int);
    let ghost bv = rule@.body;
    let mut j: usize = 0;
    assert(ads_view(adorned@).subrange(0, a0.len() as int) =~= a0);
    while j < rule.body.len()
        invariant
            grows_from(ads_view(adorned@), init, groups, groups_names(groups)),
            0 <= i < a0.len() <= adorned@.len(),
            ads_view(adorned@).subrange(0, a0.len() as int) == a0,
            a0[i] == (p, ad@),
            0 <= rr < rules_for(groups, p).len(),
            rules_for(groups, p)[rr] == rule@,
            !has_negation(rule@.body),
            bv == rule@.body,
            hg == head_grounded(rule@.head, ad@, ad@.len() as int),
            j <= rule.body@.len(),
            names_of(grounded@).to_set() == body_grounded(bv, j as int, hg),
            forall|q: Seq<char>| #[trigger] has_key(a0, q) ==> has_key(ads_view(adorned@), q),
            forall|j2: int| 0 <= j2 < j ==> (#[trigger] call_at(groups, p, ad@, rr, j2) matches Some(d)
                ==> has_key(ads_view(adorned@), d.0)),
        decreases rule.body.len() - j,
    {
        assert(bv[j as int] == rule.body@[j as int]@);
        match &rule.body[j] {
            WhereClause::Pattern(pt) => {
                ground_var(&mut grounded, &pt.entity);
                ground_var(&mut grounded, &pt.value);
            },
            WhereClause::RuleInvocation { predicate: called, args } => {
                let cad = adorn_args(args, &grounded);
                assert(cad@ == call_adornment(rule@, ad@, j as int));
                if has_bound_arg(cad.as_slice()) && !has_adornment(adorned, called.as_str()) {
                    let ghost before = ads_view(adorned@);
                    let ghost x = (called@, cad@);
                    assert(call_at(groups, p, ad@, rr, j as int) == Some(x));
                    assert(before[i] == a0[i]);
                    proof {
                        lemma_grows_push(before, init, groups, x, i, rr, j as int);
                        lemma_push_keeps_keys(before, x);
                    }
                    adorned.push((to_owned_string(called.as_str()), cad));
                    assert(ads_view(adorned@) =~= before.push(x));
                    assert(ads_view(adorned@).subrange(0, a0.len() as int) =~= before.subrange(0, a0.len() as int));
                }
                let ghost g0 = names_of(grounded@).to_set();
                let mut q: usize = 0;
                while q < args.len()
                    invariant
                        q <= args@.len(),
                        names_of(grounded@).to_set() == args_grounded(edn_seq_view(args@), q as int, g0),
                    decreases args.len() - q,
                {
                    ground_var(&mut grounded, &args[q]);
                    q = q + 1;
                }
            },
            _ => {},
        }
        j = j + 1;
    }
}

/// Propagate adornments transitively through rule bodies (handles mutual recursion).
/// Starting from `initial`, expands until fixed point: each rule (without a
/// negation) of an adorned predicate grounds the head variables at its bound
/// positions, then the variables of each pattern and invocation in turn; an
/// invocation whose adornment has a bound position adds its predicate, with
/// that adornment, unless the predicate already has one.
#[verifier::rlimit(30)]
pub fn propagate_adornments(initial: &Vec<(String, Vec<char>)>, registry: &RuleRegistry) -> (r: Vec<
    (String, Vec<char>),
>)
    requires
        distinct_keys(ads_view(initial@)),
    ensures
        grows_from(ads_view(r@), ads_view(initial@), registry.groups(), groups_names(registry.groups())),
        forall|q: Seq<char>, a: Seq<char>| #[trigger]
            demands(ads_view(r@), registry.groups(), q, a) ==> has_key(ads_view(r@), q),
{
    let ghost groups = registry.groups();
    let ghost names = groups_names(groups);
    let ghost init = ads_view(initial@);
    let mut adorned = clone_ads(initial);
    assert(ads_view(adorned@).subrange(0, init.len() as int) =~= init);
    loop
        invariant
            groups == registry.groups(),
            names == groups_names(groups),
            init == ads_view(initial@),
            grows_from(ads_view(adorned@), init, groups, names),
            adorned@.len() - init.len() <= names.len(),
        ensures
            grows_from(ads_view(adorned@), init, groups, names),
            forall|q: Seq<char>, a: Seq<char>| #[trigger]
                demands(ads_view(adorned@), groups, q, a) ==> has_key(ads_view(adorned@), q),
        decreases names.len() - (adorned@.len() - init.len()),
    {
        let n = adorned.len();
        let ghost snap = ads_view(adorned@);
        let mut i: usize = 0;
        while i < n
            invariant
                groups == registry.groups(),
                names == groups_names(groups),
                init == ads_view(initial@),
                grows_from(ads_view(adorned@), init, groups, names),
                snap.len() == n,
                i <= n <= adorned@.len(),
                ads_view(adorned@).subrange(0, n as int) == snap,
                forall|i2: int| 0 <= i2 < i ==> entry_covered(ads_view(adorned@), groups, #[trigger] snap[i2].0, snap[i2].1),
            decreases n - i,
        {
            assert(snap[i as int] == ads_view(adorned@)[i as int]);
            let pred = to_owned_string(adorned[i].0.as_str());
            let ad = sub_slice(adorned[i].1.as_slice(), 0, adorned[i].1.len());
            assert(ad@ =~= snap[i as int].1);
            let ghost p = pred@;
            let rules = registry.get_rules(pred.as_str());
            let ghost rs = rules_for(groups, p);
            let mut rr: usize = 0;
            while rr < rules.len()
                invariant
                    groups == registry.groups(),
                    names == groups_names(groups),
                    init == ads_view(initial@),
                    grows_from(ads_view(adorned@), init, groups, names),
                    snap.len() == n,
                    i < n <= adorned@.len(),
                    ads_view(adorned@).subrange(0, n as int) == snap,
                    forall|i2: int| 0 <= i2 < i ==> entry_covered(ads_view(adorned@), groups, #[trigger] snap[i2].0, snap[i2].1),
                    p == snap[i as int].0,
                    ad@ == snap[i as int].1,
                    rules_view(rules@) == rs,
                    rs == rules_for(groups, p),
                    rr <= rules@.len(),
                    forall|r2: int, j2: int| 0 <= r2 < rr ==> (#[trigger] call_at(groups, p, ad@, r2, j2) matches Some(d)
                        ==> has_key(ads_view(adorned@), d.0)),
                decreases rules.len() - rr,
            {
                let ghost before = ads_view(adorned@);
                assert(before[i as int] == snap[i as int]);
                assert(rs[rr as int] == rules@[rr as int]@);
                adorn_rule_calls(&mut adorned, &rules[rr], &ad, Ghost(init), Ghost(groups), Ghost(i as int), Ghost(p), Ghost(rr as int));
                proof {
                    let after = ads_view(adorned@);
                    assert(after.subrange(0, n as int) =~= before.subrange(0, n as int));
                    assert forall|i2: int| 0 <= i2 < i implies entry_covered(after, groups, #[trigger] snap[i2].0, snap[i2].1) by {
                        assert(entry_covered(before, groups, snap[i2].0, snap[i2].1));
                    }
                }
                rr = rr + 1;
            }
            assert(entry_covered(ads_view(adorned@), groups, snap[i as int].0, snap[i as int].1));
            i = i + 1;
        }
        proof {
            lemma_added_bound(ads_view(adorned@), init.len() as int, names);
        }
        if adorned.len() == n {
            proof {
                let fin = ads_view(adorned@);
                assert(fin =~= snap);
                assert forall|q: Seq<char>, a: Seq<char>| #[trigger] demands(fin, groups, q, a) implies has_key(fin, q) by {
                    let (i2, r2, j2) = choose|i2: int, r2: int, j2: int| 0 <= i2 < fin.len() && #[trigger] call_at(groups, fin[i2].0, fin[i2].1, r2, j2) == Some((q, a));
                    assert(entry_covered(fin, groups, snap[i2].0, snap[i2].1));
                }
            }
            break;
        }
    }
    adorned
}

/// The groups after registering each (predicate, rule) item in turn.
pub open spec fn register_all(s: Seq<(Seq<char>, Seq<RuleV>)>, items: Seq<(Seq<char>, RuleV)>) -> Seq<
    (Seq<char>, Seq<RuleV>),
>
    decreases items.len(),
{
    if items.len() == 0 {
        s
    } else {
        with_rule(register_all(s, items.drop_last()), items.last().0, items.last().1)
    }
}

/// A rule of predicate `p`, guarded when `p` is adorned.
pub open spec fn rewritten_rule(rule: RuleV, p: Seq<char>, ads: Seq<(Seq<char>, Seq<char>)>) -> RuleV {
    match lookup_ad(ads, p) {
        Some(a) => guarded_rule(rule, p, a),
        None => rule,
    }
}

/// The rewritten rules of the groups, group by group, as registrations.
pub open spec fn guarded_items(gs: Seq<(Seq<char>, Seq<RuleV>)>, ads: Seq<(Seq<char>, Seq<char>)>) -> Seq<
    (Seq<char>, RuleV),
>
    decreases gs.len(),
{
    if gs.len() == 0 {
        seq![]
    } else {
        let g = gs.last();
        guarded_items(gs.drop_last(), ads) + g.1.map_values(|r: RuleV| (g.0, rewritten_rule(r, g.0, ads)))
    }
}

/// The propagation rules of some rules of predicate `p`, in order.
pub open spec fn rules_propagation(rs: Seq<RuleV>, p: Seq<char>, ads: Seq<(Seq<char>, Seq<char>)>) -> Seq<
    (Seq<char>, RuleV),
>
    decreases rs.len(),
{
    if rs.len() == 0 {
        seq![]
    } else {
        rules_propagation(rs.drop_last(), p, ads) + propagation_rules(rs.last(), p, ads)
    }
}

/// The propagation rules of the groups, group by group, as registrations.
pub open spec fn propagation_items(gs: Seq<(Seq<char>, Seq<RuleV>)>, ads: Seq<(Seq<char>, Seq<char>)>) -> Seq<
    (Seq<char>, RuleV),
>
    decreases gs.len(),
{
    if gs.len() == 0 {
        seq![]
    } else {
        propagation_items(gs.drop_last(), ads) + rules_propagation(gs.last().1, gs.last().0, ads)
    }
}

proof fn lemma_register_push(s: Seq<(Seq<char>, Seq<RuleV>)>, items: Seq<(Seq<char>, RuleV)>, x: (Seq<char>, RuleV))
    ensures
        register_all(s, items.push(x)) == with_rule(register_all(s, items), x.0, x.1),
{
    assert(items.push(x).drop_last() =~= items);
}

/// Build rewritten registry: copy all rules with magic guards injected for adorned
/// predicates, then register magic propagation rules for all adorned predicates.
pub fn build_rewritten_registry(registry: &RuleRegistry, adorned: &Vec<(String, Vec<char>)>) -> (r: RuleRegistry)
    ensures
        r.groups() == register_all(
            seq![],
            guarded_items(registry.groups(), ads_view(adorned@)) + propagation_items(registry.groups(), ads_view(adorned@)),
        ),
{
    let ghost groups = registry.groups();
    let ghost ads = ads_view(adorned@);
    let names = registry.predicate_names();
    assert(names@.map_values(|x: String| x@).len() == groups.map_values(|g: (Seq<char>, Seq<RuleV>)| g.0).len());
    let mut new_reg = RuleRegistry::new();
    let ghost mut items: Seq<(Seq<char>, RuleV)> = seq![];
    let mut gi: usize = 0;
    assert(guarded_items(groups.subrange(0, 0), ads) =~= Seq::<(Seq<char>, RuleV)>::empty());
    while gi < names.len()
        invariant
            groups == registry.groups(),
            ads == ads_view(adorned@),
            distinct_predicates(groups),
            names@.map_values(|x: String| x@) == groups.map_values(|g: (Seq<char>, Seq<RuleV>)| g.0),
            names@.len() == groups.len(),
            gi <= names@.len(),
            items == guarded_items(groups.subrange(0, gi as int), ads),
            new_reg.groups() == register_all(seq![], items),
        decreases names.len() - gi,
    {
        assert(names@.map_values(|x: String| x@)[gi as int] == groups.map_values(|g: (Seq<char>, Seq<RuleV>)| g.0)[gi as int]);
        assert(names@[gi as int]@ == groups[gi as int].0);
        proof { lemma_rules_for_index(groups, gi as int); }
        let pred = &names[gi];
        let rules = registry.get_rules(pred.as_str());
        let ghost g = groups[gi as int];
        let ghost base = items;
        let mut ri: usize = 0;
        while ri < rules.len()
            invariant
                ads == ads_view(adorned@),
                rules_view(rules@) == g.1,
                pred@ == g.0,
                ri <= rules@.len(),
                items == base + g.1.subrange(0, ri as int).map_values(|r: RuleV| (g.0, rewritten_rule(r, g.0, ads))),
                new_reg.groups() == register_all(seq![], items),
            decreases rules.len() - ri,
        {
            assert(g.1[ri as int] == rules@[ri as int]@);
            let rewritten = match find_adornment(adorned, pred.as_str()) {
                Some(a) => inject_magic_guard(&rules[ri], pred.as_str(), a.as_slice()),
                None => rules[ri].clone(),
            };
            let ghost x = (g.0, rewritten@);
            proof { lemma_register_push(seq![], items, x); }
            new_reg.register_rule(to_owned_string(pred.as_str()), rewritten);
            proof {
                assert(g.1.subrange(0, ri + 1).map_values(|r: RuleV| (g.0, rewritten_rule(r, g.0, ads))) =~= g.1.subrange(
                    0,
                    ri as int,
                ).map_values(|r: RuleV| (g.0, rewritten_rule(r, g.0, ads))).push(x));
                items = items.push(x);
            }
            ri = ri + 1;
        }
        proof {
            assert(g.1.subrange(0, g.1.len() as int) =~= g.1);
            assert(groups.subrange(0, gi + 1).drop_last() =~= groups.subrange(0, gi as int));
            assert(groups.subrange(0, gi + 1).last() == g);
        }
        gi = gi + 1;
    }
    assert(groups.subrange(0, groups.len() as int) =~= groups);
    let ghost guarded = items;
    let mut gi: usize = 0;
    assert(propagation_items(groups.subrange(0, 0), ads) =~= Seq::<(Seq<char>, RuleV)>::empty());
    assert(guarded + propagation_items(groups.subrange(0, 0), ads) =~= guarded);
    while gi < names.len()
        invariant
            groups == registry.groups(),
            ads == ads_view(adorned@),
            distinct_predicates(groups),
            names@.map_values(|x: String| x@) == groups.map_values(|g: (Seq<char>, Seq<RuleV>)| g.0),
            names@.len() == groups.len(),
            gi <= names@.len(),
            guarded == guarded_items(groups, ads),
            items == guarded + propagation_items(groups.subrange(0, gi as int), ads),
            new_reg.groups() == register_all(seq![], items),
        decreases names.len() - gi,
    {
        assert(names@.map_values(|x: String| x@)[gi as int] == groups.map_values(|g: (Seq<char>, Seq<RuleV>)| g.0)[gi as int]);
        assert(names@[gi as int]@ == groups[gi as int].0);
        proof { lemma_rules_for_index(groups, gi as int); }
        let pred = &names[gi];
        let rules = registry.get_rules(pred.as_str());
        let ghost g = groups[gi as int];
        let ghost base = items;
        let mut ri: usize = 0;
        assert(rules_propagation(g.1.subrange(0, 0), g.0, ads) =~= Seq::<(Seq<char>, RuleV)>::empty());
        assert(base + rules_propagation(g.1.subrange(0, 0), g.0, ads) =~= base);
        while ri < rules.len()
            invariant
                ads == ads_view(adorned@),
                rules_view(rules@) == g.1,
                pred@ == g.0,
                ri <= rules@.len(),
                items == base + rules_propagation(g.1.subrange(0, ri as int), g.0, ads),
                new_reg.groups() == register_all(seq![], items),
            decreases rules.len() - ri,
        {
            assert(g.1[ri as int] == rules@[ri as int]@);
            let props = build_propagation_rules(&rules[ri], pred.as_str(), adorned);
            let ghost pv = named_rules_view(props@);
            let ghost base2 = items;
            let mut k: usize = 0;
            while k < props.len()
                invariant
                    pv == named_rules_view(props@),
                    k <= props@.len(),
                    items == base2 + pv.subrange(0, k as int),
                    new_reg.groups() == register_all(seq![], items),
                decreases props.len() - k,
            {
                let ghost x = pv[k as int];
                proof { lemma_register_push(seq![], items, x); }
                new_reg.register_rule(to_owned_string(props[k].0.as_str()), props[k].1.clone());
                proof {
                    assert(pv.subrange(0, k + 1) =~= pv.subrange(0, k as int).push(x));
                    assert(base2 + pv.subrange(0, k + 1) =~= (base2 + pv.subrange(0, k as int)).push(x));
                    items = items.push(x);
                }
                k = k + 1;
            }
            proof {
                assert(pv.subrange(0, pv.len() as int) =~= pv);
                assert(g.1.subrange(0, ri + 1).drop_last() =~= g.1.subrange(0, ri as int));
                assert(rules_propagation(g.1.subrange(0, ri + 1), g.0, ads) == rules_propagation(
                    g.1.subrange(0, ri as int),
                    g.0,
                    ads,
                ) + propagation_rules(g.1[ri as int], g.0, ads));
                assert(base + rules_propagation(g.1.subrange(0, ri + 1), g.0, ads) =~= base2 + pv);
            }
            ri = ri + 1;
        }
        proof {
            assert(g.1.subrange(0, g.1.len() as int) =~= g.1);
            assert(groups.subrange(0, gi + 1).drop_last() =~= groups.subrange(0, gi as int));
            assert(groups.subrange(0, gi + 1).last() == g);
            assert(guarded + propagation_items(groups.subrange(0, gi + 1), ads) =~= base + rules_propagation(g.1, g.0, ads));
        }
        gi = gi + 1;
    }
    new_reg
}

/// The entries whose adornment has a bound position, in order.
pub open spec fn bound_entries(ads: Seq<(Seq<char>, Seq<char>)>) -> Seq<(Seq<char>, Seq<char>)>
    decreases ads.len(),
{
    if ads.len() == 0 {
        seq![]
    } else if ads.last().1.contains('b') {
        bound_entries(ads.drop_last()).push(ads.last())
    } else {
        bound_entries(ads.drop_last())
    }
}

/// Whether `ads` propagates `init` through the rules of `groups`: `init`
/// grown by demanded predicates until every demand names an entry.
pub open spec fn propagated(
    ads: Seq<(Seq<char>, Seq<char>)>,
    init: Seq<(Seq<char>, Seq<char>)>,
    groups: Seq<(Seq<char>, Seq<RuleV>)>,
) -> bool {
    &&& grows_from(ads, init, groups, groups_names(groups))
    &&& forall|q: Seq<char>, a: Seq<char>| #[trigger] demands(ads, groups, q, a) ==> has_key(ads, q)
}

/// The initial adornments of a query: those of its invocations (see
/// [`adorn_scan`]) that have a bound position.
pub open spec fn query_adornments(cs: Seq<ClauseV>) -> Seq<(Seq<char>, Seq<char>)> {
    bound_entries(adorn_scan(cs, cs.len() as int).1)
}

proof fn lemma_adorn_scan_distinct(cs: Seq<ClauseV>, k: int)
    ensures
        distinct_keys(adorn_scan(cs, k).1),
    decreases k,
{
    if k > 0 {
        lemma_adorn_scan_distinct(cs, k - 1);
        let (g, ads) = adorn_scan(cs, k - 1);
        match cs[k - 1] {
            ClauseV::RuleInvocation { predicate, args } => {
                if !(exists|i: int| 0 <= i < ads.len() && ads[i].0 == predicate) {
                    let n = ads.push((predicate, args.map_values(|a: EdnV| adorn_arg(a, g))));
                    assert forall|i: int, j: int| 0 <= i < j < n.len() implies n[i].0 != n[j].0 by {
                        assert(n[i] == ads[i]);
                        if j < ads.len() {
                            assert(n[j] == ads[j]);
                        }
                    }
                }
            },
            _ => {},
        }
    }
}

proof fn lemma_bound_entries(ads: Seq<(Seq<char>, Seq<char>)>)
    requires
        distinct_keys(ads),
    ensures
        distinct_keys(bound_entries(ads)),
        forall|k: int| 0 <= k < bound_entries(ads).len() ==> ads.contains(#[trigger] bound_entries(ads)[k]),
    decreases ads.len(),
{
    if ads.len() > 0 {
        let d = ads.drop_last();
        lemma_bound_entries(d);
        let prev = bound_entries(d);
        assert forall|k: int| 0 <= k < prev.len() implies ads.contains(#[trigger] prev[k]) by {
            let w = choose|w: int| 0 <= w < d.len() && d[w] == prev[k];
            assert(ads[w] == prev[k]);
        }
        if ads.last().1.contains('b') {
            let n = prev.push(ads.last());
            assert forall|i: int, j: int| 0 <= i < j < n.len() implies n[i].0 != n[j].0 by {
                assert(n[i] == prev[i]);
                if j < prev.len() {
                    assert(n[j] == prev[j]);
                } else {
                    let w = choose|w: int| 0 <= w < d.len() && d[w] == prev[i];
                    assert(ads[w] == prev[i]);
                    assert(ads[ads.len() - 1] == n[j]);
                }
            }
            assert forall|k: int| 0 <= k < n.len() implies ads.contains(#[trigger] n[k]) by {
                if k < prev.len() {
                    assert(n[k] == prev[k]);
                } else {
                    assert(ads[ads.len() - 1] == n[k]);
                }
            }
        }
    }
}

/// Whether `ad` holds `c`.
fn adornment_has(ad: &[char], c: char) -> (r: bool)
    ensures
        r == ad@.contains(c),
{
    let mut i: usize = 0;
    while i < ad.len()
        invariant
            i <= ad.len(),
            forall|j: int| 0 <= j < i ==> ad@[j] != c,
        decreases ad.len() - i,
    {
        if ad[i] == c {
            return true;
        }
        i = i + 1;
    }
    false
}

/// Rewrites the rules for the query by magic sets: `None` when no invocation
/// of the query has a bound position, when none of those has a free
/// position, or when the adornments give no seed fact; otherwise the
/// rewritten rules and the seed facts to load.
pub fn rewrite(query: &DatalogQuery, registry: &RuleRegistry) -> (r: Option<(RuleRegistry, Vec<(EntityId, String, Value)>)>)
    ensures
        ({
            let cs = clause_seq_view(query.where_clauses@);
            let init = query_adornments(cs);
            let groups = registry.groups();
            &&& (init.len() == 0 || forall|k: int| 0 <= k < init.len() ==> !(#[trigger] init[k]).1.contains('f'))
                ==> r is None
            &&& (r matches Some(x) ==> exists|ads: Seq<(Seq<char>, Seq<char>)>| {
                &&& propagated(ads, init, groups)
                &&& seed_scan(cs, cs.len() as int, ads).len() > 0
                &&& seeds_match(x.1@, seed_scan(cs, cs.len() as int, ads))
                &&& x.0.groups() == register_all(seq![], guarded_items(groups, ads) + propagation_items(groups, ads))
            })
            &&& (r is None && init.len() > 0 && (exists|k: int| 0 <= k < init.len() && (#[trigger] init[k]).1.contains('f'))
                ==> exists|ads: Seq<(Seq<char>, Seq<char>)>| propagated(ads, init, groups) && seed_scan(cs, cs.len() as int, ads).len() == 0)
        }),
{
    let ghost cs = clause_seq_view(query.where_clauses@);
    let initial = compute_query_adornments(&query.where_clauses);
    let ghost all = ads_view(initial@);
    assert(all == adorn_scan(cs, cs.len() as int).1);
    let mut bound: Vec<(String, Vec<char>)> = Vec::new();
    let mut i: usize = 0;
    assert(all.subrange(0, 0) =~= Seq::<(Seq<char>, Seq<char>)>::empty());
    while i < initial.len()
        invariant
            i <= initial@.len(),
            all == ads_view(initial@),
            ads_view(bound@) == bound_entries(all.subrange(0, i as int)),
        decreases initial.len() - i,
    {
        let ghost before = ads_view(bound@);
        assert(all.subrange(0, i + 1).drop_last() =~= all.subrange(0, i as int));
        assert(all.subrange(0, i + 1).last() == all[i as int]);
        if has_bound_arg(initial[i].1.as_slice()) {
            let k = to_owned_string(initial[i].0.as_str());
            let a = sub_slice(initial[i].1.as_slice(), 0, initial[i].1.len());
            assert(a@ =~= initial@[i as int].1@);
            bound.push((k, a));
            assert(ads_view(bound@) =~= before.push(all[i as int]));
        }
        i = i + 1;
    }
    assert(all.subrange(0, all.len() as int) =~= all);
    let ghost init = ads_view(bound@);
    assert(init == query_adornments(cs));
    if bound.len() == 0 {
        return None;
    }
    let mut any_free = false;
    let mut k: usize = 0;
    while k < bound.len()
        invariant
            k <= bound@.len(),
            init == ads_view(bound@),
            any_free == exists|j: int| 0 <= j < k && (#[trigger] init[j]).1.contains('f'),
        decreases bound.len() - k,
    {
        assert(init[k as int].1 == bound@[k as int].1@);
        if adornment_has(bound[k].1.as_slice(), 'f') {
            any_free = true;
        }
        k = k + 1;
    }
    if !any_free {
        return None;
    }
    proof {
        lemma_adorn_scan_distinct(cs, cs.len() as int);
        lemma_bound_entries(all);
    }
    let adorned = propagate_adornments(&bound, registry);
    let ghost ads = ads_view(adorned@);
    assert(propagated(ads, init, registry.groups()));
    let seeds = build_seed_facts(&query.where_clauses, &adorned);
    if seeds.len() == 0 {
        assert(seed_scan(cs, cs.len() as int, ads).len() == 0);
        return None;
    }
    let rewritten = build_rewritten_registry(registry, &adorned);
    assert(seed_scan(cs, cs.len() as int, ads).len() > 0);
    Some((rewritten, seeds))
}

} // verus!
