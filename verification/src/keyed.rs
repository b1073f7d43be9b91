//! Finite maps from names to values kept as a list of entries in which no
//! name occurs twice, and the facts that relate such a list to the map it
//! denotes.
use vstd::prelude::*;

verus! {

/// Whether entry `i` of `s` has the name `k`.
pub open spec fn key_at<V>(s: Seq<(String, V)>, k: Seq<char>, i: int) -> bool {
    0 <= i < s.len() && s[i].0@ == k
}

/// Whether no two entries of `s` have the same name.
pub open spec fn distinct_keys<V>(s: Seq<(String, V)>) -> bool {
    forall|i: int, j: int| 0 <= i < j < s.len() ==> s[i].0@ != s[j].0@
}

/// The map that an entry list denotes, each value taken by its view.
pub open spec fn keyed_map<V: View>(s: Seq<(String, V)>) -> Map<Seq<char>, V::V> {
    Map::new(
        |k: Seq<char>| exists|i: int| key_at(s, k, i),
        |k: Seq<char>| s[choose|i: int| key_at(s, k, i)].1@,
    )
}

pub proof fn lemma_keyed_lookup<V: View>(s: Seq<(String, V)>, i: int)
    requires
        distinct_keys(s),
        0 <= i < s.len(),
    ensures
        keyed_map(s).contains_key(s[i].0@),
        keyed_map(s)[s[i].0@] == s[i].1@,
{
    let k = s[i].0@;
    assert(key_at(s, k, i));
    let j = choose|j: int| key_at(s, k, j);
    assert(i == j);
}

pub proof fn lemma_keyed_absent<V: View>(s: Seq<(String, V)>, k: Seq<char>)
    requires
        forall|i: int| 0 <= i < s.len() ==> s[i].0@ != k,
    ensures
        !keyed_map(s).contains_key(k),
{
}

pub proof fn lemma_keyed_update<V: View>(s: Seq<(String, V)>, i: int, e: (String, V))
    requires
        distinct_keys(s),
        0 <= i < s.len(),
        s[i].0@ == e.0@,
    ensures
        distinct_keys(s.update(i, e)),
        keyed_map(s.update(i, e)) == keyed_map(s).insert(e.0@, e.1@),
{
    let t = s.update(i, e);
    let m = keyed_map(s).insert(e.0@, e.1@);
    assert forall|q: Seq<char>| #![auto] keyed_map(t).contains_key(q) == m.contains_key(q) by {
        if exists|j: int| key_at(t, q, j) {
            let j = choose|j: int| key_at(t, q, j);
            if j != i {
                assert(key_at(s, q, j));
            }
        }
        if keyed_map(s).contains_key(q) {
            let j = choose|j: int| key_at(s, q, j);
            assert(key_at(t, q, j));
        }
        if q == e.0@ {
            assert(key_at(t, q, i));
        }
    }
    assert forall|q: Seq<char>| keyed_map(t).contains_key(q) implies keyed_map(t)[q] == m[q] by {
        let j = choose|j: int| key_at(t, q, j);
        lemma_keyed_lookup(t, j);
        if j != i {
            lemma_keyed_lookup(s, j);
        }
    }
    assert(keyed_map(t) =~= m);
}

pub proof fn lemma_keyed_push<V: View>(s: Seq<(String, V)>, e: (String, V))
    requires
        distinct_keys(s),
        forall|i: int| 0 <= i < s.len() ==> s[i].0@ != e.0@,
    ensures
        distinct_keys(s.push(e)),
        keyed_map(s.push(e)) == keyed_map(s).insert(e.0@, e.1@),
{
    let t = s.push(e);
    let n = s.len() as int;
    let m = keyed_map(s).insert(e.0@, e.1@);
    assert forall|q: Seq<char>| #![auto] keyed_map(t).contains_key(q) == m.contains_key(q) by {
        if exists|j: int| key_at(t, q, j) {
            let j = choose|j: int| key_at(t, q, j);
            if j != n {
                assert(key_at(s, q, j));
            }
        }
        if keyed_map(s).contains_key(q) {
            let j = choose|j: int| key_at(s, q, j);
            assert(key_at(t, q, j));
        }
        if q == e.0@ {
            assert(key_at(t, q, n));
        }
    }
    assert forall|q: Seq<char>| keyed_map(t).contains_key(q) implies keyed_map(t)[q] == m[q] by {
        let j = choose|j: int| key_at(t, q, j);
        lemma_keyed_lookup(t, j);
        if j != n {
            lemma_keyed_lookup(s, j);
        }
    }
    assert(keyed_map(t) =~= m);
}

pub proof fn lemma_keyed_len<V: View>(s: Seq<(String, V)>)
    requires
        distinct_keys(s),
    ensures
        keyed_map(s).dom().len() == s.len(),
        keyed_map(s).dom().finite(),
    decreases s.len(),
{
    if s.len() > 0 {
        let p = s.drop_last();
        assert(distinct_keys(p));
        lemma_keyed_len(p);
        assert(s =~= p.push(s.last()));
        lemma_keyed_push(p, s.last());
        lemma_keyed_absent(p, s.last().0@);
    } else {
        assert(keyed_map(s).dom() =~= Set::empty());
    }
}

/// Finds the entry with the given name.
pub fn find_key<V>(s: &Vec<(String, V)>, key: &str) -> (r: Option<usize>)
    ensures
        r matches Some(i) ==> i < s@.len() && s@[i as int].0@ == key@,
        r is None ==> forall|i: int| 0 <= i < s@.len() ==> s@[i].0@ != key@,
{
    let mut i: usize = 0;
    while i < s.len()
        invariant
            i <= s@.len(),
            forall|j: int| 0 <= j < i ==> s@[j].0@ != key@,
        decreases s.len() - i,
    {
        if crate::text::str_is(s[i].0.as_str(), key) {
            return Some(i);
        }
        i = i + 1;
    }
    None
}

} // verus!
