//! Variable bindings: a finite map from logic-variable names to values.
use vstd::prelude::*;
use crate::graph::types::{Value, ValueV, value_eq};

verus! {

/// Whether entry `i` of `s` binds the name `k`.
pub open spec fn has_key_at(s: Seq<(String, Value)>, k: Seq<char>, i: int) -> bool {
    0 <= i < s.len() && s[i].0@ == k
}

/// Whether no two entries of `s` bind the same name.
pub open spec fn keys_distinct(s: Seq<(String, Value)>) -> bool {
    forall|i: int, j: int| 0 <= i < j < s.len() ==> s[i].0@ != s[j].0@
}

/// The map that an entry list denotes.
pub open spec fn entries_map(s: Seq<(String, Value)>) -> Map<Seq<char>, ValueV> {
    Map::new(
        |k: Seq<char>| exists|i: int| has_key_at(s, k, i),
        |k: Seq<char>| s[choose|i: int| has_key_at(s, k, i)].1@,
    )
}

proof fn lemma_lookup(s: Seq<(String, Value)>, i: int)
    requires
        keys_distinct(s),
        0 <= i < s.len(),
    ensures
        entries_map(s).contains_key(s[i].0@),
        entries_map(s)[s[i].0@] == s[i].1@,
{
    let k = s[i].0@;
    assert(has_key_at(s, k, i));
    let j = choose|j: int| has_key_at(s, k, j);
    assert(i == j);
}

proof fn lemma_absent(s: Seq<(String, Value)>, k: Seq<char>)
    requires
        forall|i: int| 0 <= i < s.len() ==> s[i].0@ != k,
    ensures
        !entries_map(s).contains_key(k),
{
}

proof fn lemma_update(s: Seq<(String, Value)>, i: int, e: (String, Value))
    requires
        keys_distinct(s),
        0 <= i < s.len(),
        s[i].0@ == e.0@,
    ensures
        keys_distinct(s.update(i, e)),
        entries_map(s.update(i, e)) == entries_map(s).insert(e.0@, e.1@),
{
    let t = s.update(i, e);
    let m = entries_map(s).insert(e.0@, e.1@);
    assert forall|q: Seq<char>| #![auto] entries_map(t).contains_key(q) == m.contains_key(q) by {
        if exists|j: int| has_key_at(t, q, j) {
            let j = choose|j: int| has_key_at(t, q, j);
            if j != i {
                assert(has_key_at(s, q, j));
            }
        }
        if entries_map(s).contains_key(q) {
            let j = choose|j: int| has_key_at(s, q, j);
            assert(has_key_at(t, q, j));
        }
        if q == e.0@ {
            assert(has_key_at(t, q, i));
        }
    }
    assert forall|q: Seq<char>| entries_map(t).contains_key(q) implies entries_map(t)[q] == m[q] by {
        let j = choose|j: int| has_key_at(t, q, j);
        lemma_lookup(t, j);
        if j != i {
            lemma_lookup(s, j);
        }
    }
    assert(entries_map(t) =~= m);
}

proof fn lemma_push(s: Seq<(String, Value)>, e: (String, Value))
    requires
        keys_distinct(s),
        forall|i: int| 0 <= i < s.len() ==> s[i].0@ != e.0@,
    ensures
        keys_distinct(s.push(e)),
        entries_map(s.push(e)) == entries_map(s).insert(e.0@, e.1@),
{
    let t = s.push(e);
    let n = s.len() as int;
    let m = entries_map(s).insert(e.0@, e.1@);
    assert forall|q: Seq<char>| #![auto] entries_map(t).contains_key(q) == m.contains_key(q) by {
        if exists|j: int| has_key_at(t, q, j) {
            let j = choose|j: int| has_key_at(t, q, j);
            if j != n {
                assert(has_key_at(s, q, j));
            }
        }
        if entries_map(s).contains_key(q) {
            let j = choose|j: int| has_key_at(s, q, j);
            assert(has_key_at(t, q, j));
        }
        if q == e.0@ {
            assert(has_key_at(t, q, n));
        }
    }
    assert forall|q: Seq<char>| entries_map(t).contains_key(q) implies entries_map(t)[q] == m[q] by {
        let j = choose|j: int| has_key_at(t, q, j);
        lemma_lookup(t, j);
        if j != n {
            lemma_lookup(s, j);
        }
    }
    assert(entries_map(t) =~= m);
}

proof fn lemma_finite(s: Seq<(String, Value)>)
    ensures
        entries_map(s).dom().finite(),
{
    let keys = Seq::new(s.len(), |i: int| s[i].0@);
    assert(entries_map(s).dom() =~= keys.to_set()) by {
        assert forall|k: Seq<char>| entries_map(s).dom().contains(k) implies keys.to_set().contains(k) by {
            let i = choose|i: int| has_key_at(s, k, i);
            assert(keys[i] == k);
        }
        assert forall|k: Seq<char>| keys.to_set().contains(k) implies entries_map(s).dom().contains(k) by {
            let i = choose|i: int| 0 <= i < keys.len() && keys[i] == k;
            assert(has_key_at(s, k, i));
        }
    }
    broadcast use vstd::seq_lib::seq_to_set_is_finite;
    assert(keys.to_set().finite());
}


proof fn lemma_prefix_push(s: Seq<(String, Value)>, i: int)
    requires
        keys_distinct(s),
        0 <= i < s.len(),
    ensures
        keys_distinct(s.subrange(0, i)),
        keys_distinct(s.subrange(0, i + 1)),
        entries_map(s.subrange(0, i + 1)) == entries_map(s.subrange(0, i)).insert(s[i].0@, s[i].1@),
{
    let p = s.subrange(0, i);
    assert(s.subrange(0, i + 1) =~= p.push(s[i]));
    lemma_push(p, s[i]);
}

proof fn lemma_len(s: Seq<(String, Value)>)
    requires
        keys_distinct(s),
    ensures
        entries_map(s).dom().len() == s.len(),
        entries_map(s).dom().finite(),
    decreases s.len(),
{
    lemma_finite(s);
    if s.len() > 0 {
        let p = s.drop_last();
        assert(keys_distinct(p));
        lemma_len(p);
        assert(s =~= p.push(s.last()));
        lemma_push(p, s.last());
        lemma_absent(p, s.last().0@);
    } else {
        assert(entries_map(s).dom() =~= Set::empty());
    }
}

/// Whether the name `k` is among the model of `keep`.
pub open spec fn names_contain(keep: Seq<String>, k: Seq<char>) -> bool {
    exists|i: int| 0 <= i < keep.len() && keep[i]@ == k
}

/// The set of names a list of strings denotes.
pub open spec fn name_set(keep: Seq<String>) -> Set<Seq<char>> {
    Set::new(|k: Seq<char>| names_contain(keep, k))
}

/// Variable bindings for query execution: maps variable names (e.g. "?name")
/// to their bound values. Each name is bound at most once.
#[derive(Debug)]
pub struct Bindings {
    entries: Vec<(String, Value)>,
}

impl Bindings {
    #[verifier::type_invariant]
    spec fn inv(self) -> bool {
        keys_distinct(self.entries@)
    }

    /// The bound variables and their values.
    pub closed spec fn view(&self) -> Map<Seq<char>, ValueV> {
        entries_map(self.entries@)
    }

    /// Empty bindings.
    pub fn new() -> (r: Self)
        ensures
            r@ == Map::<Seq<char>, ValueV>::empty(),
    {
        let r = Bindings { entries: Vec::new() };
        assert(r@ =~= Map::<Seq<char>, ValueV>::empty());
        r
    }

    fn find(&self, key: &str) -> (r: Option<usize>)
        ensures
            r matches Some(i) ==> i < self.entries@.len() && self.entries@[i as int].0@ == key@,
            r is None ==> forall|i: int| 0 <= i < self.entries@.len() ==> self.entries@[i].0@ != key@,
    {
        let mut i: usize = 0;
        while i < self.entries.len()
            invariant
                i <= self.entries@.len(),
                forall|j: int| 0 <= j < i ==> self.entries@[j].0@ != key@,
            decreases self.entries.len() - i,
        {
            if crate::text::str_is(self.entries[i].0.as_str(), key) {
                return Some(i);
            }
            i = i + 1;
        }
        None
    }

    /// The value bound to `key`, if any.
    pub fn get(&self, key: &str) -> (r: Option<&Value>)
        ensures
            r is Some <==> self@.contains_key(key@),
            r matches Some(v) ==> self@[key@] == v@,
    {
        proof { use_type_invariant(self); }
        match self.find(key) {
            Some(i) => {
                proof { lemma_lookup(self.entries@, i as int); }
                Some(&self.entries[i].1)
            },
            None => {
                proof { lemma_absent(self.entries@, key@); }
                None
            },
        }
    }

    /// Whether `key` is bound.
    pub fn contains_key(&self, key: &str) -> (r: bool)
        ensures
            r == self@.contains_key(key@),
    {
        self.get(key).is_some()
    }

    /// Bind `key` to `value`, replacing any previous binding of `key`.
    pub fn insert(&mut self, key: String, value: Value)
        ensures
            final(self)@ == old(self)@.insert(key@, value@),
    {
        proof { use_type_invariant(&*self); }
        let pos = self.find(key.as_str());
        let mut fresh: Vec<(String, Value)> = Vec::new();
        let mut j: usize = 0;
        while j < self.entries.len()
            invariant
                j <= self.entries@.len(),
                fresh@ == self.entries@.subrange(0, j as int),
            decreases self.entries.len() - j,
        {
            let e = (self.entries[j].0.clone(), self.entries[j].1.clone());
            fresh.push(e);
            j = j + 1;
            assert(fresh@ =~= self.entries@.subrange(0, j as int));
        }
        assert(fresh@ =~= self.entries@);
        match pos {
            Some(i) => {
                proof { lemma_update(fresh@, i as int, (key, value)); }
                fresh.set(i, (key, value));
            },
            None => {
                proof { lemma_push(fresh@, (key, value)); }
                fresh.push((key, value));
            },
        }
        *self = Bindings { entries: fresh };
    }

    /// The number of bound variables.
    pub fn len(&self) -> (r: usize)
        ensures
            r == self@.dom().len(),
            self@.dom().finite(),
    {
        proof {
            use_type_invariant(self);
            lemma_len(self.entries@);
        }
        self.entries.len()
    }

    /// The bound variable names, each once, in binding order.
    pub fn keys(&self) -> (r: Vec<String>)
        ensures
            name_set(r@) == self@.dom(),
            r@.len() == self@.dom().len(),
    {
        proof {
            use_type_invariant(self);
            lemma_len(self.entries@);
        }
        let mut out: Vec<String> = Vec::new();
        let mut i: usize = 0;
        while i < self.entries.len()
            invariant
                i <= self.entries@.len(),
                out@.len() == i,
                forall|j: int| 0 <= j < i ==> out@[j]@ == self.entries@[j].0@,
            decreases self.entries.len() - i,
        {
            out.push(self.entries[i].0.clone());
            i = i + 1;
        }
        proof {
            assert forall|k: Seq<char>| name_set(out@).contains(k) == self@.dom().contains(k) by {
                if name_set(out@).contains(k) {
                    let j = choose|j: int| 0 <= j < out@.len() && out@[j]@ == k;
                    assert(has_key_at(self.entries@, k, j));
                }
                if self@.dom().contains(k) {
                    let j = choose|j: int| has_key_at(self.entries@, k, j);
                    assert(out@[j]@ == k);
                }
            }
            assert(name_set(out@) =~= self@.dom());
        }
        out
    }

    /// Adds every binding of `other` whose variable is not yet bound here.
    pub fn merge_missing(&mut self, other: &Bindings)
        ensures
            final(self)@ == other@.union_prefer_right(old(self)@),
    {
        proof { use_type_invariant(other); }
        let ghost start = self@;
        let mut i: usize = 0;
        while i < other.entries.len()
            invariant
                i <= other.entries@.len(),
                keys_distinct(other.entries@),
                self@ == entries_map(other.entries@.subrange(0, i as int)).union_prefer_right(start),
            decreases other.entries.len() - i,
        {
            proof { lemma_prefix_push(other.entries@, i as int); }
            let k = &other.entries[i].0;
            if !self.contains_key(k.as_str()) {
                self.insert(k.clone(), other.entries[i].1.clone());
            }
            i = i + 1;
            proof {
                let m = entries_map(other.entries@.subrange(0, i as int)).union_prefer_right(start);
                assert(self@ =~= m);
            }
        }
        assert(other.entries@.subrange(0, other.entries.len() as int) =~= other.entries@);
    }

    /// The bindings of the variables named in `keep` only.
    pub fn retain_keys(&self, keep: &Vec<String>) -> (r: Bindings)
        ensures
            r@ == self@.restrict(name_set(keep@)),
    {
        proof { use_type_invariant(self); }
        let mut out = Bindings::new();
        let mut i: usize = 0;
        while i < self.entries.len()
            invariant
                i <= self.entries@.len(),
                keys_distinct(self.entries@),
                out@ == entries_map(self.entries@.subrange(0, i as int)).restrict(name_set(keep@)),
            decreases self.entries.len() - i,
        {
            proof { lemma_prefix_push(self.entries@, i as int); }
            let k = &self.entries[i].0;
            let mut found = false;
            let mut j: usize = 0;
            while j < keep.len()
                invariant
                    j <= keep@.len(),
                    found == exists|q: int| 0 <= q < j && keep@[q]@ == k@,
                decreases keep.len() - j,
            {
                if crate::text::str_is(keep[j].as_str(), k.as_str()) {
                    found = true;
                }
                j = j + 1;
            }
            assert(found == name_set(keep@).contains(k@));
            if found {
                out.insert(k.clone(), self.entries[i].1.clone());
            }
            i = i + 1;
            proof {
                let m = entries_map(self.entries@.subrange(0, i as int)).restrict(name_set(keep@));
                assert(out@ =~= m);
            }
        }
        assert(self.entries@.subrange(0, self.entries.len() as int) =~= self.entries@);
        out
    }


    /// Binds every variable of `other` to its value there, overriding.
    pub fn extend_with(&mut self, other: &Bindings)
        ensures
            final(self)@ == old(self)@.union_prefer_right(other@),
    {
        proof { use_type_invariant(other); }
        let ghost start = self@;
        let mut i: usize = 0;
        while i < other.entries.len()
            invariant
                i <= other.entries@.len(),
                keys_distinct(other.entries@),
                self@ == start.union_prefer_right(entries_map(other.entries@.subrange(0, i as int))),
            decreases other.entries.len() - i,
        {
            proof { lemma_prefix_push(other.entries@, i as int); }
            self.insert(other.entries[i].0.clone(), other.entries[i].1.clone());
            i = i + 1;
            proof {
                let m = start.union_prefer_right(entries_map(other.entries@.subrange(0, i as int)));
                assert(self@ =~= m);
            }
        }
        assert(other.entries@.subrange(0, other.entries.len() as int) =~= other.entries@);
    }

    /// Whether `self` and `other` agree on every variable both bind.
    pub fn agrees_with(&self, other: &Bindings) -> (r: bool)
        ensures
            r == forall|k: Seq<char>| #[trigger] self@.contains_key(k) && other@.contains_key(k)
                ==> self@[k] == other@[k],
    {
        proof { use_type_invariant(self); }
        let mut i: usize = 0;
        while i < self.entries.len()
            invariant
                i <= self.entries@.len(),
                keys_distinct(self.entries@),
                forall|j: int| 0 <= j < i ==> (other@.contains_key(#[trigger] self.entries@[j].0@)
                    ==> other@[self.entries@[j].0@] == self.entries@[j].1@),
            decreases self.entries.len() - i,
        {
            match other.get(self.entries[i].0.as_str()) {
                Some(v) => {
                    if !value_eq(v, &self.entries[i].1) {
                        proof {
                            lemma_lookup(self.entries@, i as int);
                            let k = self.entries@[i as int].0@;
                            assert(self@.contains_key(k) && other@.contains_key(k) && self@[k] != other@[k]);
                        }
                        return false;
                    }
                },
                None => {},
            }
            i = i + 1;
        }
        proof {
            assert forall|k: Seq<char>| #[trigger] self@.contains_key(k) && other@.contains_key(k)
                implies self@[k] == other@[k] by {
                let q = choose|q: int| has_key_at(self.entries@, k, q);
                lemma_lookup(self.entries@, q);
            }
        }
        true
    }

    /// Whether two bindings bind the same variables to the same values.
    pub fn same_as(&self, other: &Bindings) -> (r: bool)
        ensures
            r == (self@ == other@),
    {
        proof {
            use_type_invariant(self);
            use_type_invariant(other);
        }
        let mut i: usize = 0;
        while i < self.entries.len()
            invariant
                i <= self.entries@.len(),
                keys_distinct(self.entries@),
                forall|j: int| 0 <= j < i ==> other@.contains_key(#[trigger] self.entries@[j].0@)
                    && other@[self.entries@[j].0@] == self.entries@[j].1@,
            decreases self.entries.len() - i,
        {
            match other.get(self.entries[i].0.as_str()) {
                Some(v) => {
                    if !value_eq(v, &self.entries[i].1) {
                        proof { lemma_lookup(self.entries@, i as int); }
                        return false;
                    }
                },
                None => {
                    proof { lemma_lookup(self.entries@, i as int); }
                    return false;
                },
            }
            i = i + 1;
        }
        let mut j: usize = 0;
        while j < other.entries.len()
            invariant
                j <= other.entries@.len(),
                keys_distinct(other.entries@),
                forall|q: int| 0 <= q < j ==> self@.contains_key(#[trigger] other.entries@[q].0@),
            decreases other.entries.len() - j,
        {
            if !self.contains_key(other.entries[j].0.as_str()) {
                proof { lemma_lookup(other.entries@, j as int); }
                return false;
            }
            j = j + 1;
        }
        proof {
            assert forall|k: Seq<char>| #![auto] self@.contains_key(k) == other@.contains_key(k) by {
                if self@.contains_key(k) {
                    let q = choose|q: int| has_key_at(self.entries@, k, q);
                    assert(other@.contains_key(self.entries@[q].0@));
                }
                if other@.contains_key(k) {
                    let q = choose|q: int| has_key_at(other.entries@, k, q);
                    assert(self@.contains_key(other.entries@[q].0@));
                }
            }
            assert forall|k: Seq<char>| self@.contains_key(k) implies self@[k] == other@[k] by {
                let q = choose|q: int| has_key_at(self.entries@, k, q);
                lemma_lookup(self.entries@, q);
            }
            assert(self@ =~= other@);
        }
        true
    }
}

impl Clone for Bindings {
    fn clone(&self) -> (r: Self)
        ensures
            r@ == self@,
    {
        proof { use_type_invariant(self); }
        let mut fresh: Vec<(String, Value)> = Vec::new();
        let mut j: usize = 0;
        while j < self.entries.len()
            invariant
                j <= self.entries@.len(),
                fresh@ == self.entries@.subrange(0, j as int),
            decreases self.entries.len() - j,
        {
            let e = (self.entries[j].0.clone(), self.entries[j].1.clone());
            fresh.push(e);
            j = j + 1;
            assert(fresh@ =~= self.entries@.subrange(0, j as int));
        }
        assert(fresh@ =~= self.entries@);
        Bindings { entries: fresh }
    }
}

/// The models of a sequence of bindings.
pub open spec fn bindings_view(s: Seq<Bindings>) -> Seq<Map<Seq<char>, ValueV>> {
    s.map_values(|b: Bindings| b@)
}

/// Whether a binding with the given model occurs in `s`.
pub fn contains_bindings(s: &Vec<Bindings>, b: &Bindings) -> (r: bool)
    ensures
        r == bindings_view(s@).contains(b@),
{
    let mut i: usize = 0;
    while i < s.len()
        invariant
            i <= s@.len(),
            forall|j: int| 0 <= j < i ==> s@[j]@ != b@,
        decreases s.len() - i,
    {
        if s[i].same_as(b) {
            assert(bindings_view(s@)[i as int] == b@);
            return true;
        }
        i = i + 1;
    }
    assert(!bindings_view(s@).contains(b@)) by {
        if bindings_view(s@).contains(b@) {
            let j = choose|j: int| 0 <= j < bindings_view(s@).len() && bindings_view(s@)[j] == b@;
            assert(s@[j]@ == b@);
        }
    }
    false
}

} // verus!
