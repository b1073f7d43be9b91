//! Rule registry: the Datalog rules, grouped by the predicate of their head.
//! Several rules may share a predicate (a base case and a recursive case).
use vstd::prelude::*;
use crate::query::datalog::types::{Rule, RuleV};
use crate::text::str_is;

verus! {

/// The models of a list of rules.
pub open spec fn rules_view(s: Seq<Rule>) -> Seq<RuleV> {
    s.map_values(|r: Rule| r@)
}

/// Whether no predicate occurs twice among the groups.
pub open spec fn distinct_predicates(s: Seq<(Seq<char>, Seq<RuleV>)>) -> bool {
    forall|i: int, j: int| 0 <= i < j < s.len() ==> s[i].0 != s[j].0
}

/// The position of the group of predicate `p`, if any.
pub open spec fn group_index(s: Seq<(Seq<char>, Seq<RuleV>)>, p: Seq<char>) -> Option<int> {
    if exists|i: int| 0 <= i < s.len() && s[i].0 == p {
        Some(choose|i: int| 0 <= i < s.len() && s[i].0 == p)
    } else {
        None
    }
}

/// The rules registered for predicate `p`, in registration order.
pub open spec fn rules_for(s: Seq<(Seq<char>, Seq<RuleV>)>, p: Seq<char>) -> Seq<RuleV> {
    match group_index(s, p) {
        Some(i) => s[i].1,
        None => seq![],
    }
}

/// With distinct predicates, the rules of a group's predicate are that
/// group's rules.
pub proof fn lemma_rules_for_index(s: Seq<(Seq<char>, Seq<RuleV>)>, i: int)
    requires
        distinct_predicates(s),
        0 <= i < s.len(),
    ensures
        group_index(s, s[i].0) == Some(i),
        rules_for(s, s[i].0) == s[i].1,
{
    let k = choose|k: int| 0 <= k < s.len() && s[k].0 == s[i].0;
    if k != i {
        if k < i {
            assert(s[k].0 != s[i].0);
        } else {
            assert(s[i].0 != s[k].0);
        }
    }
}

/// Rules accumulate per predicate: after registering `rule` for `p`, the
/// rules of `p` are its earlier rules followed by `rule`, and every other
/// predicate keeps its rules.
pub proof fn lemma_register_then_get(s: Seq<(Seq<char>, Seq<RuleV>)>, p: Seq<char>, rule: RuleV, q: Seq<char>)
    requires
        distinct_predicates(s),
    ensures
        rules_for(with_rule(s, p, rule), p) == rules_for(s, p).push(rule),
        q != p ==> rules_for(with_rule(s, p, rule), q) == rules_for(s, q),
        distinct_predicates(with_rule(s, p, rule)),
{
    let t = with_rule(s, p, rule);
    match group_index(s, p) {
        Some(i) => {
            assert(t[i].0 == p);
            assert forall|a: int, b: int| 0 <= a < b < t.len() implies t[a].0 != t[b].0 by {
                assert(t[a].0 == s[a].0);
                assert(t[b].0 == s[b].0);
            }
            lemma_rules_for_index(t, i);
            if q != p {
                if let Some(j) = group_index(s, q) {
                    assert(t[j].0 == q);
                    lemma_rules_for_index(t, j);
                    lemma_rules_for_index(s, j);
                } else {
                    assert forall|j: int| 0 <= j < t.len() implies t[j].0 != q by {
                        assert(t[j].0 == s[j].0);
                    }
                }
            }
        },
        None => {
            let n = s.len() as int;
            assert forall|a: int, b: int| 0 <= a < b < t.len() implies t[a].0 != t[b].0 by {
                assert(t[a] == s[a]);
                if b < n {
                    assert(t[b] == s[b]);
                }
            }
            assert(t[n].0 == p);
            lemma_rules_for_index(t, n);
            if q != p {
                if let Some(j) = group_index(s, q) {
                    assert(t[j] == s[j]);
                    lemma_rules_for_index(t, j);
                    lemma_rules_for_index(s, j);
                } else {
                    assert forall|j: int| 0 <= j < t.len() implies t[j].0 != q by {
                        if j < n {
                            assert(t[j] == s[j]);
                        }
                    }
                }
            }
        },
    }
}

/// The groups after registering `rule` for predicate `p`: appended to the
/// group of `p`, or a new last group.
pub open spec fn with_rule(s: Seq<(Seq<char>, Seq<RuleV>)>, p: Seq<char>, rule: RuleV) -> Seq<(Seq<char>, Seq<RuleV>)> {
    match group_index(s, p) {
        Some(i) => s.update(i, (p, s[i].1.push(rule))),
        None => s.push((p, seq![rule])),
    }
}

/// The total number of rules in the groups.
pub open spec fn total_rules(s: Seq<(Seq<char>, Seq<RuleV>)>) -> int
    decreases s.len(),
{
    if s.len() == 0 {
        0
    } else {
        total_rules(s.drop_last()) + s.last().1.len()
    }
}

/// In-memory registry of Datalog rules, grouped by head predicate in the
/// order in which each predicate was first registered.
pub struct RuleRegistry {
    groups: Vec<(String, Vec<Rule>)>,
}

impl Clone for RuleRegistry {
    fn clone(&self) -> (r: Self)
        ensures
            r.groups() == self.groups(),
    {
        proof { use_type_invariant(self); }
        RuleRegistry { groups: clone_groups(&self.groups) }
    }
}

impl Default for RuleRegistry {
    fn default() -> (r: Self)
        ensures
            r.groups() == Seq::<(Seq<char>, Seq<RuleV>)>::empty(),
    {
        RuleRegistry::new()
    }
}

impl RuleRegistry {
    #[verifier::type_invariant]
    spec fn inv(self) -> bool {
        distinct_predicates(self.groups@.map_values(|g: (String, Vec<Rule>)| (g.0@, rules_view(g.1@))))
    }

    /// The groups: each predicate with its rules in registration order.
    pub closed spec fn groups(&self) -> Seq<(Seq<char>, Seq<RuleV>)> {
        self.groups@.map_values(|g: (String, Vec<Rule>)| (g.0@, rules_view(g.1@)))
    }

    /// An empty registry.
    pub fn new() -> (r: Self)
        ensures
            r.groups() == Seq::<(Seq<char>, Seq<RuleV>)>::empty(),
    {
        let r = RuleRegistry { groups: Vec::new() };
        assert(r.groups() =~= Seq::<(Seq<char>, Seq<RuleV>)>::empty());
        r
    }

    fn find(&self, predicate: &str) -> (r: Option<usize>)
        ensures
            r matches Some(i) ==> i < self.groups().len() && group_index(self.groups(), predicate@) == Some(i as int),
            r is None ==> group_index(self.groups(), predicate@) is None,
    {
        proof { use_type_invariant(self); }
        let ghost s = self.groups();
        let mut i: usize = 0;
        while i < self.groups.len()
            invariant
                i <= self.groups@.len(),
                s == self.groups(),
                distinct_predicates(s),
                forall|j: int| 0 <= j < i ==> s[j].0 != predicate@,
            decreases self.groups.len() - i,
        {
            if str_is(self.groups[i].0.as_str(), predicate) {
                proof {
                    assert(s[i as int].0 == predicate@);
                    let k = choose|k: int| 0 <= k < s.len() && s[k].0 == predicate@;
                    assert(k == i);
                }
                return Some(i);
            }
            i = i + 1;
        }
        None
    }

    /// Registers `rule` under `predicate`, after the rules already registered
    /// for it. Never fails.
    pub fn register_rule(&mut self, predicate: String, rule: Rule) -> (r: Result<(), String>)
        ensures
            r is Ok,
            final(self).groups() == with_rule(old(self).groups(), predicate@, rule@),
            distinct_predicates(final(self).groups()),
    {
        proof { use_type_invariant(&*self); }
        let pos = self.find(predicate.as_str());
        let ghost before = self.groups();
        let mut fresh = clone_groups(&self.groups);
        match pos {
            Some(i) => {
                let mut rs = clone_rules(&fresh[i].1);
                let ghost rv = rules_view(rs@);
                rs.push(rule);
                assert(rules_view(rs@) =~= rv.push(rule@));
                fresh.set(i, (predicate, rs));
            },
            None => {
                let mut rs: Vec<Rule> = Vec::new();
                rs.push(rule);
                assert(rules_view(rs@) =~= seq![rule@]);
                fresh.push((predicate, rs));
            },
        }
        proof {
            let after = fresh@.map_values(|g: (String, Vec<Rule>)| (g.0@, rules_view(g.1@)));
            assert(after =~= with_rule(before, predicate@, rule@));
            assert forall|a: int, b: int| 0 <= a < b < after.len() implies after[a].0 != after[b].0 by {
                if pos is None && b == before.len() {
                    assert(after[a] == before[a]);
                }
            }
        }
        *self = RuleRegistry { groups: fresh };
        Ok(())
    }

    /// Copies of the rules registered for `predicate` (none when unknown).
    pub fn get_rules(&self, predicate: &str) -> (r: Vec<Rule>)
        ensures
            rules_view(r@) == rules_for(self.groups(), predicate@),
    {
        match self.find(predicate) {
            Some(i) => {
                let r = clone_rules(&self.groups[i].1);
                r
            },
            None => {
                let r: Vec<Rule> = Vec::new();
                assert(rules_view(r@) =~= Seq::<RuleV>::empty());
                r
            },
        }
    }

    /// Whether any rule is registered for `predicate`.
    pub fn has_rule(&self, predicate: &str) -> (r: bool)
        ensures
            r == (group_index(self.groups(), predicate@) is Some),
    {
        self.find(predicate).is_some()
    }

    /// The total number of registered rules.
    pub fn rule_count(&self) -> (r: usize)
        requires
            total_rules(self.groups()) <= usize::MAX,
        ensures
            r == total_rules(self.groups()),
    {
        let ghost s = self.groups();
        let mut total: usize = 0;
        let mut i: usize = 0;
        while i < self.groups.len()
            invariant
                i <= self.groups@.len(),
                s == self.groups(),
                total_rules(s) <= usize::MAX,
                total == total_rules(s.subrange(0, i as int)),
            decreases self.groups.len() - i,
        {
            proof {
                assert(s.subrange(0, i + 1).drop_last() =~= s.subrange(0, i as int));
                lemma_total_prefix(s, i + 1);
            }
            total = total + self.groups[i].1.len();
            i = i + 1;
        }
        assert(s.subrange(0, s.len() as int) =~= s);
        total
    }

    /// The number of predicates with registered rules.
    pub fn predicate_count(&self) -> (r: usize)
        ensures
            r == self.groups().len(),
    {
        self.groups.len()
    }

    /// Removes every rule.
    pub fn clear(&mut self)
        ensures
            final(self).groups() == Seq::<(Seq<char>, Seq<RuleV>)>::empty(),
    {
        *self = RuleRegistry::new();
    }

    /// The predicates with registered rules, in first-registration order.
    pub fn predicate_names(&self) -> (r: Vec<String>)
        ensures
            r@.map_values(|s: String| s@) == self.groups().map_values(|g: (Seq<char>, Seq<RuleV>)| g.0),
            distinct_predicates(self.groups()),
    {
        proof { use_type_invariant(self); }
        let mut out: Vec<String> = Vec::new();
        let mut i: usize = 0;
        while i < self.groups.len()
            invariant
                i <= self.groups@.len(),
                out@.len() == i,
                forall|j: int| 0 <= j < i ==> out@[j]@ == self.groups@[j].0@,
            decreases self.groups.len() - i,
        {
            out.push(self.groups[i].0.clone());
            i = i + 1;
        }
        assert(out@.map_values(|s: String| s@) =~= self.groups().map_values(|g: (Seq<char>, Seq<RuleV>)| g.0));
        out
    }
}

proof fn lemma_total_prefix(s: Seq<(Seq<char>, Seq<RuleV>)>, k: int)
    requires
        0 <= k <= s.len(),
    ensures
        total_rules(s.subrange(0, k)) <= total_rules(s),
    decreases s.len() - k,
{
    if k < s.len() {
        lemma_total_prefix(s, k + 1);
        assert(s.subrange(0, k + 1).drop_last() =~= s.subrange(0, k));
    } else {
        assert(s.subrange(0, k) =~= s);
    }
}

/// Copies a list of rules.
pub fn clone_rules(v: &Vec<Rule>) -> (r: Vec<Rule>)
    ensures
        rules_view(r@) == rules_view(v@),
{
    let mut out: Vec<Rule> = Vec::new();
    let mut k: usize = 0;
    while k < v.len()
        invariant
            k <= v@.len(),
            out@.len() == k,
            forall|j: int| 0 <= j < k ==> out@[j]@ == v@[j]@,
        decreases v.len() - k,
    {
        out.push(v[k].clone());
        k = k + 1;
    }
    assert(rules_view(out@) =~= rules_view(v@));
    out
}

fn clone_groups(v: &Vec<(String, Vec<Rule>)>) -> (r: Vec<(String, Vec<Rule>)>)
    ensures
        r@.map_values(|g: (String, Vec<Rule>)| (g.0@, rules_view(g.1@)))
            == v@.map_values(|g: (String, Vec<Rule>)| (g.0@, rules_view(g.1@))),
{
    let mut out: Vec<(String, Vec<Rule>)> = Vec::new();
    let mut k: usize = 0;
    while k < v.len()
        invariant
            k <= v@.len(),
            out@.len() == k,
            forall|j: int| 0 <= j < k ==> out@[j].0@ == v@[j].0@ && rules_view(out@[j].1@) == rules_view(v@[j].1@),
        decreases v.len() - k,
    {
        out.push((v[k].0.clone(), clone_rules(&v[k].1)));
        k = k + 1;
    }
    assert(out@.map_values(|g: (String, Vec<Rule>)| (g.0@, rules_view(g.1@)))
        =~= v@.map_values(|g: (String, Vec<Rule>)| (g.0@, rules_view(g.1@))));
    out
}

} // verus!
