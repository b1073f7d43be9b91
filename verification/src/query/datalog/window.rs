//! Window functions: each row of a result gets a value computed over its
//! partition (the rows with the same partition value), in the window's order.
use vstd::prelude::*;
use crate::graph::types::{Value, ValueV, value_eq};
use crate::query::datalog::bindings::{Bindings, bindings_view};
use crate::query::datalog::functions::{
    AccV, FunctionRegistry, RegEntry, WindowOps, acc_final, acc_init, acc_step, entry_ops,
    spec_value_lt, value_lt,
};
use crate::query::datalog::matcher::BindingV;
use crate::query::datalog::types::{
    FindSpec, FindSpecV, Order, WindowFunc, WindowSpec, WindowSpecV, find_specs_view, opt_name,
    window_func_name,
};
use crate::text::{concat2, concat3, nat_text, usize_to_string};

verus! {

/// The binding key under which the values of window spec `i` are stored.
pub open spec fn win_key(i: nat) -> Seq<char> {
    "__win_"@ + nat_text(i)
}

/// The key `__win_{i}`.
pub fn win_key_exec(i: usize) -> (r: String)
    ensures
        r@ == win_key(i as nat),
{
    let n = usize_to_string(i);
    concat2("__win_", n.as_str())
}

/// The value of `name` in a row, if it binds it.
pub open spec fn lookup(row: BindingV, name: Seq<char>) -> Option<ValueV> {
    if row.contains_key(name) {
        Some(row[name])
    } else {
        None
    }
}

/// The value of an optional variable in a row: `None` when there is no
/// variable or the row does not bind it.
pub open spec fn lookup_opt(row: BindingV, name: Option<Seq<char>>) -> Option<ValueV> {
    match name {
        Some(v) => lookup(row, v),
        None => None,
    }
}

/// A missing value read as `Null`.
pub open spec fn or_null(o: Option<ValueV>) -> ValueV {
    match o {
        Some(v) => v,
        None => ValueV::Null,
    }
}

/// Whether a row whose order value is `a` comes before one whose order value
/// is `b`: ascending puts `a` first when it is smaller in value order,
/// descending when it is not (and in both cases not when they are equal).
pub open spec fn sorts_before(a: ValueV, b: ValueV, order: Order) -> bool {
    a != b && match order {
        Order::Asc => spec_value_lt(a, b),
        Order::Desc => !spec_value_lt(a, b),
    }
}

/// The rows among the first `n` whose partition key is `k`, in row order.
pub open spec fn members(keys: Seq<Option<ValueV>>, k: Option<ValueV>, n: nat) -> Seq<int>
    decreases n,
{
    if n == 0 {
        Seq::empty()
    } else if keys[n - 1] == k {
        members(keys, k, (n - 1) as nat).push(n - 1)
    } else {
        members(keys, k, (n - 1) as nat)
    }
}

/// Inserts row `x` into the ordered rows `s`, after every row it does not
/// sort before (so rows that tie keep their order).
pub open spec fn insert_sorted(s: Seq<int>, x: int, ov: Seq<ValueV>, order: Order) -> Seq<int>
    decreases s.len(),
{
    if s.len() == 0 {
        seq![x]
    } else if sorts_before(ov[x], ov[s.last()], order) {
        insert_sorted(s.drop_last(), x, ov, order).push(s.last())
    } else {
        s.push(x)
    }
}

/// The rows `s` in window order, stable: insertion of each row in turn.
pub open spec fn sort_rows(s: Seq<int>, ov: Seq<ValueV>, order: Order) -> Seq<int>
    decreases s.len(),
{
    if s.len() == 0 {
        s
    } else {
        insert_sorted(sort_rows(s.drop_last(), ov, order), s.last(), ov, order)
    }
}

/// The rank of position `p` of the ordered rows: rows with the same order
/// value share the rank of the first of them, which is its position plus one.
pub open spec fn rank_at(oo: Seq<Option<ValueV>>, ord: Seq<int>, p: nat) -> int
    decreases p,
{
    if p == 0 {
        1
    } else if oo[ord[p as int]] != oo[ord[p - 1]] {
        (p + 1) as int
    } else {
        rank_at(oo, ord, (p - 1) as nat)
    }
}

/// Runs an accumulator over `vals`: the final state and the value reported
/// after each value, or the first error.
pub open spec fn running(op: WindowOps, vals: Seq<ValueV>) -> Result<(AccV, Seq<ValueV>), Seq<char>>
    decreases vals.len(),
{
    if vals.len() == 0 {
        Ok((acc_init(op), Seq::empty()))
    } else {
        match running(op, vals.drop_last()) {
            Err(m) => Err(m),
            Ok((st, out)) => match acc_step(op, st, vals.last()) {
                Err(m) => Err(m),
                Ok(st2) => match acc_final(op, st2) {
                    Err(m) => Err(m),
                    Ok(v) => Ok((st2, out.push(v))),
                },
            },
        }
    }
}

/// The message for an accumulator name that is not registered.
pub open spec fn no_descriptor_msg(name: Seq<char>) -> Seq<char> {
    "no descriptor for window function '"@ + name + "'"@
}

/// The message for a registered function without window operations.
pub open spec fn not_window_msg(name: Seq<char>) -> Seq<char> {
    "function '"@ + name + "' is not window-compatible"@
}

/// The window values of the ordered rows `ord` of one partition, position by
/// position: the row number, the rank, or the running value of the
/// accumulator registered under the function's name over the rows' values
/// of the window variable.
pub open spec fn window_values(
    w: WindowSpecV,
    entries: Seq<RegEntry>,
    ord: Seq<int>,
    oo: Seq<Option<ValueV>>,
    vv: Seq<ValueV>,
) -> Result<Seq<ValueV>, Seq<char>> {
    match w.func {
        WindowFunc::RowNumber => Ok(Seq::new(ord.len(), |p: int| ValueV::Integer((p + 1) as i64))),
        WindowFunc::Rank => Ok(Seq::new(ord.len(), |p: int| ValueV::Integer(rank_at(oo, ord, p as nat) as i64))),
        _ => {
            let name = window_func_name(w.func);
            match entry_ops(entries, name) {
                None => Err(no_descriptor_msg(name)),
                Some(None) => Err(not_window_msg(name)),
                Some(Some(op)) => match running(op, ord.map_values(|r: int| vv[r])) {
                    Ok(x) => Ok(x.1),
                    Err(m) => Err(m),
                },
            }
        },
    }
}

/// The rows with the first `p` window values written, each under `key` in
/// the row at its position.
pub open spec fn write_values(rows: Seq<BindingV>, ord: Seq<int>, vals: Seq<ValueV>, key: Seq<char>, p: nat) -> Seq<
    BindingV,
>
    decreases p,
{
    if p == 0 {
        rows
    } else {
        let prev = write_values(rows, ord, vals, key, (p - 1) as nat);
        let r = ord[p - 1];
        prev.update(r, prev[r].insert(key, vals[p - 1]))
    }
}

/// Whether row `r` is the first of its partition.
pub open spec fn is_head(keys: Seq<Option<ValueV>>, r: int) -> bool {
    forall|j: int| 0 <= j < r ==> keys[j] != keys[r]
}

/// The partition keys of the rows.
pub open spec fn part_keys(rows: Seq<BindingV>, w: WindowSpecV) -> Seq<Option<ValueV>> {
    rows.map_values(|b: BindingV| lookup_opt(b, w.partition_by))
}

/// The order values of the rows, a missing one read as `Null`.
pub open spec fn order_vals(rows: Seq<BindingV>, w: WindowSpecV) -> Seq<ValueV> {
    rows.map_values(|b: BindingV| or_null(lookup(b, w.order_by)))
}

/// The order values of the rows as they are bound.
pub open spec fn order_opts(rows: Seq<BindingV>, w: WindowSpecV) -> Seq<Option<ValueV>> {
    rows.map_values(|b: BindingV| lookup(b, w.order_by))
}

/// The values of the window variable in the rows, a missing one as `Null`.
pub open spec fn var_vals(rows: Seq<BindingV>, w: WindowSpecV) -> Seq<ValueV> {
    rows.map_values(|b: BindingV| or_null(lookup_opt(b, w.var)))
}

/// The ordered rows of the partition whose first row is `r`.
pub open spec fn partition_order(rows: Seq<BindingV>, w: WindowSpecV, r: int) -> Seq<int> {
    let keys = part_keys(rows, w);
    sort_rows(members(keys, keys[r], rows.len()), order_vals(rows, w), w.order)
}

/// One window spec over `rows`, partitions taken in the order of their first
/// rows up to row `r`: each partition's values are written under `key`; the
/// first error stops it.
pub open spec fn window_pass(rows: Seq<BindingV>, w: WindowSpecV, entries: Seq<RegEntry>, key: Seq<char>, r: nat) -> Result<
    Seq<BindingV>,
    Seq<char>,
>
    decreases r,
{
    if r == 0 {
        Ok(rows)
    } else {
        match window_pass(rows, w, entries, key, (r - 1) as nat) {
            Err(m) => Err(m),
            Ok(cur) => if is_head(part_keys(rows, w), r - 1) {
                let ord = partition_order(rows, w, r - 1);
                match window_values(w, entries, ord, order_opts(rows, w), var_vals(rows, w)) {
                    Err(m) => Err(m),
                    Ok(vals) => Ok(write_values(cur, ord, vals, key, ord.len())),
                }
            } else {
                Ok(cur)
            },
        }
    }
}

/// The window specs among the first `k` find specs applied in turn, spec `i`
/// writing its values under `__win_{i}`.
pub open spec fn window_upto(rows: Seq<BindingV>, find: Seq<FindSpecV>, entries: Seq<RegEntry>, k: nat) -> Result<
    Seq<BindingV>,
    Seq<char>,
>
    decreases k,
{
    if k == 0 {
        Ok(rows)
    } else {
        match window_upto(rows, find, entries, (k - 1) as nat) {
            Err(m) => Err(m),
            Ok(cur) => match find[k - 1] {
                FindSpecV::Window(w) => window_pass(cur, w, entries, win_key((k - 1) as nat), cur.len()),
                _ => Ok(cur),
            },
        }
    }
}

/// Every window spec of `find` applied to `rows`.
pub open spec fn spec_window(rows: Seq<BindingV>, find: Seq<FindSpecV>, entries: Seq<RegEntry>) -> Result<
    Seq<BindingV>,
    Seq<char>,
> {
    window_upto(rows, find, entries, find.len())
}

/// The models of optional values.
pub open spec fn opt_views(s: Seq<Option<Value>>) -> Seq<Option<ValueV>> {
    s.map_values(|o: Option<Value>| opt_view(o))
}

/// The model of an optional value.
pub open spec fn opt_view(o: Option<Value>) -> Option<ValueV> {
    match o {
        Some(v) => Some(v@),
        None => None,
    }
}

/// The models of values.
pub open spec fn value_views(s: Seq<Value>) -> Seq<ValueV> {
    s.map_values(|v: Value| v@)
}

/// Row indices as integers.
pub open spec fn ints(s: Seq<usize>) -> Seq<int> {
    s.map_values(|x: usize| x as int)
}

proof fn lemma_members(keys: Seq<Option<ValueV>>, k: Option<ValueV>, n: nat)
    ensures
        members(keys, k, n).len() <= n,
        forall|i: int| 0 <= i < members(keys, k, n).len() ==> 0 <= #[trigger] members(keys, k, n)[i] < n,
    decreases n,
{
    if n > 0 {
        lemma_members(keys, k, (n - 1) as nat);
    }
}

proof fn lemma_insert_sorted(s: Seq<int>, x: int, ov: Seq<ValueV>, order: Order, bound: int)
    requires
        forall|i: int| 0 <= i < s.len() ==> 0 <= #[trigger] s[i] < bound,
        0 <= x < bound,
    ensures
        insert_sorted(s, x, ov, order).len() == s.len() + 1,
        forall|i: int| 0 <= i < s.len() + 1 ==> 0 <= #[trigger] insert_sorted(s, x, ov, order)[i] < bound,
    decreases s.len(),
{
    if s.len() > 0 && sorts_before(ov[x], ov[s.last()], order) {
        lemma_insert_sorted(s.drop_last(), x, ov, order, bound);
    }
}

proof fn lemma_sort_rows(s: Seq<int>, ov: Seq<ValueV>, order: Order, bound: int)
    requires
        forall|i: int| 0 <= i < s.len() ==> 0 <= #[trigger] s[i] < bound,
    ensures
        sort_rows(s, ov, order).len() == s.len(),
        forall|i: int| 0 <= i < s.len() ==> 0 <= #[trigger] sort_rows(s, ov, order)[i] < bound,
    decreases s.len(),
{
    if s.len() > 0 {
        lemma_sort_rows(s.drop_last(), ov, order, bound);
        lemma_insert_sorted(sort_rows(s.drop_last(), ov, order), s.last(), ov, order, bound);
    }
}

/// Inserting at the position found by scanning back over the rows that the
/// new row sorts before is [`insert_sorted`].
proof fn lemma_insert_at(s: Seq<int>, x: int, ov: Seq<ValueV>, order: Order, j: int)
    requires
        0 <= j <= s.len(),
        forall|k: int| j <= k < s.len() ==> sorts_before(ov[x], ov[#[trigger] s[k]], order),
        j == 0 || !sorts_before(ov[x], ov[s[j - 1]], order),
    ensures
        insert_sorted(s, x, ov, order) == s.insert(j, x),
    decreases s.len(),
{
    if s.len() == 0 {
        assert(s.insert(j, x) =~= seq![x]);
    } else if sorts_before(ov[x], ov[s.last()], order) {
        assert(j < s.len());
        let t = s.drop_last();
        assert forall|k: int| j <= k < t.len() implies sorts_before(ov[x], ov[#[trigger] t[k]], order) by {
            assert(t[k] == s[k]);
        }
        if j > 0 {
            assert(t[j - 1] == s[j - 1]);
        }
        lemma_insert_at(t, x, ov, order, j);
        assert(t.insert(j, x).push(s.last()) =~= s.insert(j, x));
    } else {
        if j < s.len() {
            assert(sorts_before(ov[x], ov[s[s.len() - 1]], order));
        }
        assert(s.push(x) =~= s.insert(j, x));
    }
}

proof fn lemma_pass_err(rows: Seq<BindingV>, w: WindowSpecV, es: Seq<RegEntry>, key: Seq<char>, r: nat, big: nat)
    requires
        r <= big,
        window_pass(rows, w, es, key, r) is Err,
    ensures
        window_pass(rows, w, es, key, big) == window_pass(rows, w, es, key, r),
    decreases big,
{
    if big > r {
        lemma_pass_err(rows, w, es, key, r, (big - 1) as nat);
    }
}

proof fn lemma_upto_err(rows: Seq<BindingV>, find: Seq<FindSpecV>, es: Seq<RegEntry>, k: nat, big: nat)
    requires
        k <= big,
        window_upto(rows, find, es, k) is Err,
    ensures
        window_upto(rows, find, es, big) == window_upto(rows, find, es, k),
    decreases big,
{
    if big > k {
        lemma_upto_err(rows, find, es, k, (big - 1) as nat);
    }
}

proof fn lemma_running_err(op: WindowOps, vals: Seq<ValueV>, p: int, big: int)
    requires
        0 <= p <= big <= vals.len(),
        running(op, vals.take(p)) is Err,
    ensures
        running(op, vals.take(big)) == running(op, vals.take(p)),
    decreases big,
{
    if big > p {
        lemma_running_err(op, vals, p, big - 1);
        assert(vals.take(big).drop_last() =~= vals.take(big - 1));
    }
}

proof fn lemma_running(op: WindowOps, vals: Seq<ValueV>)
    ensures
        running(op, vals) matches Ok((st, out)) ==> {
            &&& out.len() == vals.len()
            &&& (st matches AccV::Count(n) ==> 0 <= n <= vals.len())
            &&& (st matches AccV::Avg(n) ==> 0 <= n <= vals.len())
        },
    decreases vals.len(),
{
    if vals.len() > 0 {
        lemma_running(op, vals.drop_last());
    }
}

fn lookup_exec(b: &Bindings, name: &str) -> (r: Option<Value>)
    ensures
        opt_view(r) == lookup(b@, name@),
{
    match b.get(name) {
        Some(v) => Some(v.clone()),
        None => None,
    }
}

fn lookup_opt_exec(b: &Bindings, name: &Option<String>) -> (r: Option<Value>)
    ensures
        opt_view(r) == lookup_opt(b@, opt_name(*name)),
{
    match name {
        Some(v) => lookup_exec(b, v.as_str()),
        None => None,
    }
}

fn or_null_exec(o: &Option<Value>) -> (r: Value)
    ensures
        r@ == or_null(opt_view(*o)),
{
    match o {
        Some(v) => v.clone(),
        None => Value::Null,
    }
}

fn opt_value_eq(a: &Option<Value>, b: &Option<Value>) -> (r: bool)
    ensures
        r == (opt_view(*a) == opt_view(*b)),
{
    match (a, b) {
        (Some(x), Some(y)) => value_eq(x, y),
        (None, None) => true,
        _ => false,
    }
}

fn sorts_before_exec(a: &Value, b: &Value, order: Order) -> (r: bool)
    ensures
        r == sorts_before(a@, b@, order),
{
    if value_eq(a, b) {
        false
    } else {
        match order {
            Order::Asc => value_lt(a, b),
            Order::Desc => !value_lt(a, b),
        }
    }
}

/// The partition keys, order values and window-variable values of the rows,
/// read before any value is written.
fn snapshot(bindings: &Vec<Bindings>, w: &WindowSpec) -> (r: (Vec<Option<Value>>, Vec<Value>, Vec<Option<Value>>, Vec<Value>))
    ensures
        opt_views(r.0@) == part_keys(bindings_view(bindings@), w@),
        value_views(r.1@) == order_vals(bindings_view(bindings@), w@),
        opt_views(r.2@) == order_opts(bindings_view(bindings@), w@),
        value_views(r.3@) == var_vals(bindings_view(bindings@), w@),
{
    let ghost rows = bindings_view(bindings@);
    let mut keys: Vec<Option<Value>> = Vec::new();
    let mut ov: Vec<Value> = Vec::new();
    let mut oo: Vec<Option<Value>> = Vec::new();
    let mut vv: Vec<Value> = Vec::new();
    let mut i: usize = 0;
    while i < bindings.len()
        invariant
            i <= bindings.len(),
            rows == bindings_view(bindings@),
            opt_views(keys@) == part_keys(rows, w@).take(i as int),
            value_views(ov@) == order_vals(rows, w@).take(i as int),
            opt_views(oo@) == order_opts(rows, w@).take(i as int),
            value_views(vv@) == var_vals(rows, w@).take(i as int),
        decreases bindings.len() - i,
    {
        let b = &bindings[i];
        assert(rows[i as int] == b@);
        let k = lookup_opt_exec(b, &w.partition_by);
        let o = lookup_exec(b, w.order_by.as_str());
        let on = or_null_exec(&o);
        let vo = lookup_opt_exec(b, &w.var);
        let vn = or_null_exec(&vo);
        proof {
            assert(part_keys(rows, w@)[i as int] == lookup_opt(b@, w@.partition_by));
            assert(order_vals(rows, w@)[i as int] == or_null(lookup(b@, w@.order_by)));
            assert(opt_views(keys@.push(k)) =~= opt_views(keys@).push(opt_view(k)));
            assert(part_keys(rows, w@).take(i + 1) =~= part_keys(rows, w@).take(i as int).push(opt_view(k)));
            assert(value_views(ov@.push(on)) =~= value_views(ov@).push(on@));
            assert(order_vals(rows, w@).take(i + 1) =~= order_vals(rows, w@).take(i as int).push(on@));
            assert(order_opts(rows, w@)[i as int] == lookup(b@, w@.order_by));
            assert(var_vals(rows, w@)[i as int] == or_null(lookup_opt(b@, w@.var)));
            assert(opt_views(oo@.push(o)) =~= opt_views(oo@).push(opt_view(o)));
            assert(order_opts(rows, w@).take(i + 1) =~= order_opts(rows, w@).take(i as int).push(opt_view(o)));
            assert(value_views(vv@.push(vn)) =~= value_views(vv@).push(vn@));
            assert(var_vals(rows, w@).take(i + 1) =~= var_vals(rows, w@).take(i as int).push(vn@));
        }
        keys.push(k);
        ov.push(on);
        oo.push(o);
        vv.push(vn);
        i = i + 1;
    }
    proof {
        assert(part_keys(rows, w@).take(i as int) =~= part_keys(rows, w@));
        assert(order_vals(rows, w@).take(i as int) =~= order_vals(rows, w@));
        assert(order_opts(rows, w@).take(i as int) =~= order_opts(rows, w@));
        assert(var_vals(rows, w@).take(i as int) =~= var_vals(rows, w@));
    }
    (keys, ov, oo, vv)
}

fn is_head_exec(keys: &Vec<Option<Value>>, r: usize) -> (b: bool)
    requires
        r < keys.len(),
    ensures
        b == is_head(opt_views(keys@), r as int),
{
    let ghost kv = opt_views(keys@);
    let mut j: usize = 0;
    while j < r
        invariant
            r < keys.len(),
            j <= r,
            kv == opt_views(keys@),
            forall|i: int| 0 <= i < j ==> kv[i] != kv[r as int],
        decreases r - j,
    {
        if opt_value_eq(&keys[j], &keys[r]) {
            assert(kv[j as int] == kv[r as int]);
            return false;
        }
        j = j + 1;
    }
    true
}

fn members_exec(keys: &Vec<Option<Value>>, r: usize) -> (m: Vec<usize>)
    requires
        r < keys.len(),
    ensures
        ints(m@) == members(opt_views(keys@), opt_views(keys@)[r as int], keys.len() as nat),
{
    let ghost kv = opt_views(keys@);
    let mut m: Vec<usize> = Vec::new();
    let mut i: usize = 0;
    while i < keys.len()
        invariant
            r < keys.len(),
            i <= keys.len(),
            kv == opt_views(keys@),
            ints(m@) == members(kv, kv[r as int], i as nat),
        decreases keys.len() - i,
    {
        if opt_value_eq(&keys[i], &keys[r]) {
            proof {
                assert(ints(m@.push(i)) =~= ints(m@).push(i as int));
            }
            m.push(i);
        }
        i = i + 1;
    }
    m
}

fn sort_exec(s: &Vec<usize>, ov: &Vec<Value>, order: Order) -> (out: Vec<usize>)
    requires
        forall|i: int| 0 <= i < s.len() ==> #[trigger] s@[i] < ov.len(),
    ensures
        ints(out@) == sort_rows(ints(s@), value_views(ov@), order),
        out.len() == s.len(),
        forall|i: int| 0 <= i < out.len() ==> #[trigger] out@[i] < ov.len(),
{
    let ghost ovv = value_views(ov@);
    let ghost si = ints(s@);
    let mut out: Vec<usize> = Vec::new();
    let mut i: usize = 0;
    while i < s.len()
        invariant
            i <= s.len(),
            ovv == value_views(ov@),
            si == ints(s@),
            forall|k: int| 0 <= k < s.len() ==> #[trigger] s@[k] < ov.len(),
            ints(out@) == sort_rows(si.take(i as int), ovv, order),
            out.len() == i,
            forall|k: int| 0 <= k < out.len() ==> #[trigger] out@[k] < ov.len(),
        decreases s.len() - i,
    {
        let x = s[i];
        let mut j: usize = out.len();
        while j > 0 && sorts_before_exec(&ov[x], &ov[out[j - 1]], order)
            invariant
                j <= out.len(),
                x < ov.len(),
                ovv == value_views(ov@),
                forall|k: int| 0 <= k < out.len() ==> #[trigger] out@[k] < ov.len(),
                forall|k: int| j <= k < out.len() ==> sorts_before(ovv[x as int], ovv[#[trigger] ints(out@)[k]], order),
            decreases j,
        {
            j = j - 1;
        }
        proof {
            let oi = ints(out@);
            assert(j == 0 || !sorts_before(ovv[x as int], ovv[oi[j - 1]], order));
            lemma_insert_at(oi, x as int, ovv, order, j as int);
            assert(si.take(i + 1).drop_last() =~= si.take(i as int));
            assert(si.take(i + 1).last() == x as int);
            assert(ints(out@.insert(j as int, x)) =~= oi.insert(j as int, x as int));
        }
        out.insert(j, x);
        i = i + 1;
    }
    proof {
        assert(si.take(i as int) =~= si);
    }
    out
}

fn write_exec(bindings: &mut Vec<Bindings>, ord: &Vec<usize>, vals: &Vec<Value>, key: &String)
    requires
        forall|i: int| 0 <= i < ord.len() ==> #[trigger] ord@[i] < old(bindings).len(),
        vals.len() == ord.len(),
    ensures
        final(bindings).len() == old(bindings).len(),
        bindings_view(final(bindings)@) == write_values(
            bindings_view(old(bindings)@),
            ints(ord@),
            value_views(vals@),
            key@,
            ord.len() as nat,
        ),
{
    let ghost rows = bindings_view(bindings@);
    let mut p: usize = 0;
    while p < ord.len()
        invariant
            p <= ord.len(),
            vals.len() == ord.len(),
            bindings.len() == rows.len(),
            forall|i: int| 0 <= i < ord.len() ==> #[trigger] ord@[i] < rows.len(),
            bindings_view(bindings@) == write_values(rows, ints(ord@), value_views(vals@), key@, p as nat),
        decreases ord.len() - p,
    {
        let idx = ord[p];
        let mut b = bindings[idx].clone();
        b.insert(key.clone(), vals[p].clone());
        proof {
            let prev = write_values(rows, ints(ord@), value_views(vals@), key@, p as nat);
            assert(ints(ord@)[p as int] == idx as int);
            assert(prev[idx as int] == bindings@[idx as int]@);
            assert(bindings_view(bindings@.update(idx as int, b)) =~= prev.update(
                idx as int,
                prev[idx as int].insert(key@, value_views(vals@)[p as int]),
            ));
        }
        bindings.set(idx, b);
        p = p + 1;
    }
}

/// The running values of the accumulator `op` over the ordered rows.
fn running_exec(op: WindowOps, ord: &Vec<usize>, vv: &Vec<Value>) -> (r: Result<Vec<Value>, String>)
    requires
        forall|i: int| 0 <= i < ord.len() ==> #[trigger] ord@[i] < vv.len(),
        ord.len() <= i64::MAX,
    ensures
        match running(op, ints(ord@).map_values(|x: int| value_views(vv@)[x])) {
            Ok(x) => r matches Ok(v) && value_views(v@) == x.1,
            Err(m) => r matches Err(e) && e@ == m,
        },
{
    let ghost vals = ints(ord@).map_values(|x: int| value_views(vv@)[x]);
    let mut state = op.init();
    let mut out: Vec<Value> = Vec::new();
    proof {
        assert(vals.take(0) =~= Seq::<ValueV>::empty());
        assert(value_views(out@) =~= Seq::<ValueV>::empty());
    }
    let mut p: usize = 0;
    while p < ord.len()
        invariant
            p <= ord.len(),
            ord.len() <= i64::MAX,
            forall|i: int| 0 <= i < ord.len() ==> #[trigger] ord@[i] < vv.len(),
            vals == ints(ord@).map_values(|x: int| value_views(vv@)[x]),
            running(op, vals.take(p as int)) == Ok::<(AccV, Seq<ValueV>), Seq<char>>((state@, value_views(out@))),
        decreases ord.len() - p,
    {
        proof {
            lemma_running(op, vals.take(p as int));
            assert(vals.take(p + 1).drop_last() =~= vals.take(p as int));
            assert(vals.take(p + 1).last() == vv@[ord@[p as int] as int]@);
        }
        let ghost before = state@;
        match op.step(&mut state, &vv[ord[p]]) {
            Ok(()) => {},
            Err(m) => {
                proof {
                    lemma_running_err(op, vals, p + 1, vals.len() as int);
                    assert(vals.take(vals.len() as int) =~= vals);
                }
                return Err(m);
            },
        }
        match op.finalise(&state) {
            Ok(v) => {
                proof {
                    assert(value_views(out@.push(v)) =~= value_views(out@).push(v@));
                }
                out.push(v);
            },
            Err(m) => {
                proof {
                    lemma_running_err(op, vals, p + 1, vals.len() as int);
                    assert(vals.take(vals.len() as int) =~= vals);
                }
                return Err(m);
            },
        }
        p = p + 1;
    }
    proof {
        assert(vals.take(p as int) =~= vals);
    }
    Ok(out)
}

/// The ranks of the ordered rows.
fn ranks_exec(ord: &Vec<usize>, oo: &Vec<Option<Value>>) -> (r: Vec<Value>)
    requires
        forall|i: int| 0 <= i < ord.len() ==> #[trigger] ord@[i] < oo.len(),
        ord.len() <= i64::MAX,
    ensures
        r.len() == ord.len(),
        value_views(r@) == Seq::new(
            ord.len() as nat,
            |p: int| ValueV::Integer(rank_at(opt_views(oo@), ints(ord@), p as nat) as i64),
        ),
{
    let ghost ov = opt_views(oo@);
    let ghost oi = ints(ord@);
    let mut out: Vec<Value> = Vec::new();
    let mut rank: i64 = 1;
    let mut prev: Option<Value> = None;
    let mut p: usize = 0;
    while p < ord.len()
        invariant
            p <= ord.len(),
            ord.len() <= i64::MAX,
            forall|i: int| 0 <= i < ord.len() ==> #[trigger] ord@[i] < oo.len(),
            ov == opt_views(oo@),
            oi == ints(ord@),
            p == 0 ==> rank == 1 && prev is None,
            p > 0 ==> rank == rank_at(ov, oi, (p - 1) as nat) && opt_view(prev) == ov[oi[p - 1]],
            1 <= rank <= p + 1,
            out.len() == p,
            value_views(out@) == Seq::new(p as nat, |q: int| ValueV::Integer(rank_at(ov, oi, q as nat) as i64)),
        decreases ord.len() - p,
    {
        let cur = oo[ord[p]].clone();
        assert(opt_view(cur) == ov[oi[p as int]]);
        if !opt_value_eq(&prev, &cur) {
            rank = (p as i64) + 1;
            prev = cur;
        }
        let v = Value::Integer(rank);
        proof {
            assert(rank == rank_at(ov, oi, p as nat));
            assert(value_views(out@.push(v)) =~= value_views(out@).push(v@));
            assert(value_views(out@.push(v)) =~= Seq::new(
                (p + 1) as nat,
                |q: int| ValueV::Integer(rank_at(ov, oi, q as nat) as i64),
            ));
        }
        out.push(v);
        p = p + 1;
    }
    out
}

/// The window values of one partition's ordered rows.
fn window_values_exec(
    w: &WindowSpec,
    registry: &FunctionRegistry,
    ord: &Vec<usize>,
    oo: &Vec<Option<Value>>,
    vv: &Vec<Value>,
) -> (r: Result<Vec<Value>, String>)
    requires
        forall|i: int| 0 <= i < ord.len() ==> #[trigger] ord@[i] < oo.len(),
        oo.len() == vv.len(),
        ord.len() <= i64::MAX,
    ensures
        match window_values(w@, registry.entries(), ints(ord@), opt_views(oo@), value_views(vv@)) {
            Ok(x) => r matches Ok(v) && value_views(v@) == x && v.len() == ord.len(),
            Err(m) => r matches Err(e) && e@ == m,
        },
{
    match w.func {
        WindowFunc::RowNumber => {
            let mut out: Vec<Value> = Vec::new();
            let mut p: usize = 0;
            while p < ord.len()
                invariant
                    p <= ord.len(),
                    ord.len() <= i64::MAX,
                    out.len() == p,
                    value_views(out@) == Seq::new(p as nat, |q: int| ValueV::Integer((q + 1) as i64)),
                decreases ord.len() - p,
            {
                let v = Value::Integer((p as i64) + 1);
                proof {
                    assert(value_views(out@.push(v)) =~= value_views(out@).push(v@));
                    assert(value_views(out@.push(v)) =~= Seq::new(
                        (p + 1) as nat,
                        |q: int| ValueV::Integer((q + 1) as i64),
                    ));
                }
                out.push(v);
                p = p + 1;
            }
            Ok(out)
        },
        WindowFunc::Rank => Ok(ranks_exec(ord, oo)),
        _ => {
            let name = w.func.name();
            let ghost es = registry.entries();
            match registry.get(name) {
                None => Err(concat3("no descriptor for window function '", name, "'")),
                Some(d) => {
                    proof {
                        let i = choose|i: int| 0 <= i < es.len()
                            && es[i].0 == name@ && es[i].1 == d.window_compatible
                            && es[i].2 == d.window_ops
                            && forall|j: int| 0 <= j < i ==> es[j].0 != name@;
                        let c = choose|c: int| 0 <= c < es.len() && es[c].0 == name@
                            && forall|j: int| 0 <= j < c ==> es[j].0 != name@;
                        assert(0 <= c < es.len() && es[c].0 == name@
                            && forall|j: int| 0 <= j < c ==> es[j].0 != name@);
                        if c < i {
                            assert(es[c].0 != name@);
                        } else if i < c {
                            assert(es[i].0 != name@);
                        }
                        assert(entry_ops(es, name@) == Some(d.window_ops));
                    }
                    match d.window_ops {
                        None => Err(concat3("function '", name, "' is not window-compatible")),
                        Some(op) => {
                            let r = running_exec(op, ord, vv);
                            proof {
                                assert(ints(ord@).map_values(|x: int| value_views(vv@)[x]).len() == ord.len());
                                lemma_running(op, ints(ord@).map_values(|x: int| value_views(vv@)[x]));
                            }
                            r
                        },
                    }
                },
            }
        },
    }
}

/// Applies one window spec to the rows, writing its values under `key`.
fn window_pass_exec(bindings: &mut Vec<Bindings>, w: &WindowSpec, registry: &FunctionRegistry, key: &String) -> (r:
    Result<(), String>)
    requires
        old(bindings).len() <= i64::MAX,
    ensures
        final(bindings).len() == old(bindings).len(),
        match window_pass(bindings_view(old(bindings)@), w@, registry.entries(), key@, old(bindings).len() as nat) {
            Ok(bs) => r is Ok && bindings_view(final(bindings)@) == bs,
            Err(m) => r matches Err(e) && e@ == m,
        },
{
    let ghost rows = bindings_view(bindings@);
    let ghost es = registry.entries();
    let n = bindings.len();
    let (keys, ov, oo, vv) = snapshot(bindings, w);
    proof {
        assert(rows.len() == n);
        assert(opt_views(keys@).len() == keys.len());
        assert(value_views(ov@).len() == ov.len());
        assert(opt_views(oo@).len() == oo.len());
        assert(value_views(vv@).len() == vv.len());
    }
    let mut r: usize = 0;
    while r < n
        invariant
            r <= n,
            n == old(bindings).len(),
            rows == bindings_view(old(bindings)@),
            keys.len() == n && ov.len() == n && oo.len() == n && vv.len() == n,
            n == rows.len(),
            n <= i64::MAX,
            bindings.len() == n,
            es == registry.entries(),
            opt_views(keys@) == part_keys(rows, w@),
            value_views(ov@) == order_vals(rows, w@),
            opt_views(oo@) == order_opts(rows, w@),
            value_views(vv@) == var_vals(rows, w@),
            window_pass(rows, w@, es, key@, r as nat) == Ok::<Seq<BindingV>, Seq<char>>(bindings_view(bindings@)),
        decreases n - r,
    {
        if is_head_exec(&keys, r) {
            let m = members_exec(&keys, r);
            proof {
                lemma_members(opt_views(keys@), opt_views(keys@)[r as int], n as nat);
                assert forall|i: int| 0 <= i < m.len() implies #[trigger] m@[i] < ov.len() by {
                    assert(ints(m@)[i] == m@[i] as int);
                }
            }
            let ord = sort_exec(&m, &ov, w.order);
            assert(ints(ord@) == partition_order(rows, w@, r as int));
            match window_values_exec(w, registry, &ord, &oo, &vv) {
                Err(e) => {
                    proof {
                        assert(window_pass(rows, w@, es, key@, (r + 1) as nat) == Err::<Seq<BindingV>, Seq<char>>(e@));
                        lemma_pass_err(rows, w@, es, key@, (r + 1) as nat, n as nat);
                    }
                    return Err(e);
                },
                Ok(vals) => {
                    write_exec(bindings, &ord, &vals, key);
                },
            }
        }
        r = r + 1;
    }
    Ok(())
}

/// Computes the window values of the rows: for each window spec `i` of the
/// find specs, each row gets, under `__win_{i}`, the value of the spec over
/// its partition (the rows with the same partition value, or all rows when
/// the spec has none) in the spec's order. Partitions are taken in the order
/// of their first rows; the first error stops the work.
pub fn apply_window_functions(bindings: &mut Vec<Bindings>, find_specs: &Vec<FindSpec>, registry: &FunctionRegistry) -> (r:
    Result<(), String>)
    requires
        old(bindings).len() <= i64::MAX,
    ensures
        final(bindings).len() == old(bindings).len(),
        match spec_window(bindings_view(old(bindings)@), find_specs_view(find_specs@), registry.entries()) {
            Ok(bs) => r is Ok && bindings_view(final(bindings)@) == bs,
            Err(m) => r matches Err(e) && e@ == m,
        },
{
    let ghost rows = bindings_view(bindings@);
    let ghost fv = find_specs_view(find_specs@);
    let n = bindings.len();
    assert(rows.len() == n);
    let mut k: usize = 0;
    while k < find_specs.len()
        invariant
            k <= find_specs.len(),
            fv == find_specs_view(find_specs@),
            fv.len() == find_specs.len(),
            n == old(bindings).len(),
            rows == bindings_view(old(bindings)@),
            bindings.len() == n,
            n <= i64::MAX,
            window_upto(rows, fv, registry.entries(), k as nat) == Ok::<Seq<BindingV>, Seq<char>>(bindings_view(bindings@)),
        decreases find_specs.len() - k,
    {
        assert(fv[k as int] == find_specs@[k as int]@);
        if let FindSpec::Window(w) = &find_specs[k] {
            let key = win_key_exec(k);
            assert(bindings_view(bindings@).len() == n);
            match window_pass_exec(bindings, w, registry, &key) {
                Ok(()) => {},
                Err(e) => {
                    proof {
                        assert(window_upto(rows, fv, registry.entries(), (k + 1) as nat) == Err::<Seq<BindingV>, Seq<char>>(e@));
                        lemma_upto_err(rows, fv, registry.entries(), (k + 1) as nat, fv.len());
                    }
                    return Err(e);
                },
            }
        }
        k = k + 1;
    }
    Ok(())
}

} // verus!
