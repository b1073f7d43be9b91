//! Lexicographic order on text, its laws, and sorting of strings by it.
use vstd::prelude::*;
use crate::graph::types::strings_view;
use crate::text::str_chars;
use crate::query::datalog::functions::{seq_lt, chars_lt};

verus! {

/// Whether `s` is in non-decreasing lexicographic order.
pub open spec fn sorted_text(s: Seq<Seq<char>>) -> bool {
    forall|i: int, j: int| 0 <= i < j < s.len() ==> !seq_lt(#[trigger] s[j], #[trigger] s[i])
}

/// No text is less than itself.
pub proof fn lemma_lt_irreflexive(a: Seq<char>)
    ensures
        !seq_lt(a, a),
    decreases a.len(),
{
    if a.len() > 0 {
        lemma_lt_irreflexive(a.drop_first());
    }
}

/// Text order is transitive.
pub proof fn lemma_lt_transitive(a: Seq<char>, b: Seq<char>, c: Seq<char>)
    requires
        seq_lt(a, b),
        seq_lt(b, c),
    ensures
        seq_lt(a, c),
    decreases a.len(),
{
    if a.len() > 0 && a[0] == b[0] && b[0] == c[0] {
        lemma_lt_transitive(a.drop_first(), b.drop_first(), c.drop_first());
    }
}

/// Text order is asymmetric.
pub proof fn lemma_lt_asymmetric(a: Seq<char>, b: Seq<char>)
    requires
        seq_lt(a, b),
    ensures
        !seq_lt(b, a),
{
    if seq_lt(b, a) {
        lemma_lt_transitive(a, b, a);
        lemma_lt_irreflexive(a);
    }
}

/// Of two different texts, one is less than the other.
pub proof fn lemma_lt_total(a: Seq<char>, b: Seq<char>)
    requires
        a != b,
    ensures
        seq_lt(a, b) || seq_lt(b, a),
    decreases a.len(),
{
    if a.len() > 0 && b.len() > 0 && a[0] == b[0] {
        assert(a.drop_first() != b.drop_first()) by {
            if a.drop_first() == b.drop_first() {
                assert(a =~= seq![a[0]] + a.drop_first());
                assert(b =~= seq![b[0]] + b.drop_first());
            }
        }
        lemma_lt_total(a.drop_first(), b.drop_first());
    } else if a.len() == 0 && b.len() == 0 {
        assert(a =~= b);
    } else if a.len() > 0 && b.len() > 0 {
        assert(a[0] < b[0] || b[0] < a[0]);
    }
}

/// The strings in lexicographic order (as `slice::sort` on `String`s orders
/// them): the result is sorted and holds the same strings, each as often.
pub fn sort_strings(v: &Vec<String>) -> (r: Vec<String>)
    ensures
        sorted_text(strings_view(r@)),
        strings_view(r@).to_multiset() == strings_view(v@).to_multiset(),
        strings_view(r@) == sorted_version(strings_view(v@)),
{
    let mut out: Vec<String> = Vec::new();
    let mut i: usize = 0;
    assert(strings_view(out@) =~= strings_view(v@.subrange(0, 0)));
    while i < v.len()
        invariant
            i <= v@.len(),
            sorted_text(strings_view(out@)),
            strings_view(out@).to_multiset() == strings_view(v@.subrange(0, i as int)).to_multiset(),
        decreases v.len() - i,
    {
        let x = v[i].clone();
        let xc = str_chars(x.as_str());
        let ghost s = strings_view(out@);
        let mut p: usize = 0;
        while p < out.len()
            invariant
                p <= out@.len(),
                s == strings_view(out@),
                xc@ == x@,
                forall|j: int| 0 <= j < p ==> !seq_lt(x@, #[trigger] s[j]),
            ensures
                p <= out@.len(),
                forall|j: int| 0 <= j < p ==> !seq_lt(x@, #[trigger] s[j]),
                p < out@.len() ==> seq_lt(x@, s[p as int]),
            decreases out.len() - p,
        {
            let oc = str_chars(out[p].as_str());
            if chars_lt(xc.as_slice(), oc.as_slice()) {
                break;
            }
            p = p + 1;
        }
        let ghost found = p < out.len();
        out.insert(p, x);
        proof {
            let t = strings_view(out@);
            assert(t =~= s.insert(p as int, x@));
            assert forall|a: int, b: int| 0 <= a < b < t.len() implies !seq_lt(#[trigger] t[b], #[trigger] t[a]) by {
                if b < p {
                } else if b == p {
                    assert(t[a] == s[a]);
                } else if a == p {
                    assert(t[b] == s[b - 1]);
                    assert(found);
                    if seq_lt(s[b - 1], x@) {
                        lemma_lt_transitive(s[b - 1], x@, s[p as int]);
                        if b - 1 > p {
                        } else {
                            lemma_lt_irreflexive(s[p as int]);
                        }
                    }
                } else if a < p {
                    assert(t[a] == s[a]);
                    assert(t[b] == s[b - 1]);
                } else {
                    assert(t[a] == s[a - 1]);
                    assert(t[b] == s[b - 1]);
                }
            }
            assert(strings_view(v@.subrange(0, i + 1)) =~= strings_view(v@.subrange(0, i as int)).push(x@));
            vstd::seq_lib::to_multiset_insert(s, p as int, x@);
            vstd::seq_lib::to_multiset_build(strings_view(v@.subrange(0, i as int)), x@);
        }
        i = i + 1;
    }
    assert(v@.subrange(0, v.len() as int) =~= v@);
    proof { lemma_sorted_version(strings_view(v@), strings_view(out@)); }
    out
}


/// The strings of `s` in lexicographic order (the sorted arrangement of the
/// same strings; it is unique, see `lemma_sorted_unique`).
pub open spec fn sorted_version(s: Seq<Seq<char>>) -> Seq<Seq<char>> {
    choose|r: Seq<Seq<char>>| sorted_text(r) && r.to_multiset() == s.to_multiset()
}

/// Two sorted arrangements of the same strings are equal.
pub proof fn lemma_sorted_unique(a: Seq<Seq<char>>, b: Seq<Seq<char>>)
    requires
        sorted_text(a),
        sorted_text(b),
        a.to_multiset() == b.to_multiset(),
    ensures
        a == b,
    decreases a.len(),
{
    vstd::seq_lib::to_multiset_len(a);
    vstd::seq_lib::to_multiset_len(b);
    assert(a.len() == b.len());
    if a.len() > 0 {
        let x = a[0];
        let y = b[0];
        assert(a.contains(x));
        vstd::seq_lib::to_multiset_contains(a, x);
        vstd::seq_lib::to_multiset_contains(b, x);
        assert(b.contains(x));
        let j = choose|j: int| 0 <= j < b.len() && b[j] == x;
        assert(!seq_lt(x, y)) by {
            if j > 0 {
                assert(!seq_lt(b[j], b[0]));
            } else {
                lemma_lt_irreflexive(x);
            }
        }
        assert(b.contains(y));
        vstd::seq_lib::to_multiset_contains(a, y);
        vstd::seq_lib::to_multiset_contains(b, y);
        assert(a.contains(y));
        let k = choose|k: int| 0 <= k < a.len() && a[k] == y;
        assert(!seq_lt(y, x)) by {
            if k > 0 {
                assert(!seq_lt(a[k], a[0]));
            } else {
                lemma_lt_irreflexive(y);
            }
        }
        if x != y {
            lemma_lt_total(x, y);
        }
        vstd::seq_lib::to_multiset_remove(a, 0);
        vstd::seq_lib::to_multiset_remove(b, 0);
        assert(a.remove(0) =~= a.drop_first());
        assert(b.remove(0) =~= b.drop_first());
        let a1 = a.drop_first();
        let b1 = b.drop_first();
        assert(sorted_text(a1)) by {
            assert forall|i: int, m: int| 0 <= i < m < a1.len() implies !seq_lt(#[trigger] a1[m], #[trigger] a1[i]) by {
                assert(a1[m] == a[m + 1] && a1[i] == a[i + 1]);
            }
        }
        assert(sorted_text(b1)) by {
            assert forall|i: int, m: int| 0 <= i < m < b1.len() implies !seq_lt(#[trigger] b1[m], #[trigger] b1[i]) by {
                assert(b1[m] == b[m + 1] && b1[i] == b[i + 1]);
            }
        }
        lemma_sorted_unique(a1, b1);
        assert(a =~= seq![x] + a1);
        assert(b =~= seq![y] + b1);
    } else {
        assert(a =~= b);
    }
}

/// A sorted arrangement of `s` is its sorted version.
pub proof fn lemma_sorted_version(s: Seq<Seq<char>>, r: Seq<Seq<char>>)
    requires
        sorted_text(r),
        r.to_multiset() == s.to_multiset(),
    ensures
        sorted_version(s) == r,
{
    let c = sorted_version(s);
    assert(sorted_text(c) && c.to_multiset() == s.to_multiset());
    lemma_sorted_unique(c, r);
}

} // verus!
