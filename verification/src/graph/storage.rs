//! In-memory fact storage: an append-only log of assertion and retraction
//! records, with transaction counters and timestamps, and the temporal views
//! over it (as-of snapshots, net-asserted facts, current values).
use vstd::prelude::*;
use crate::graph::types::{Fact, Value, ValueV, VALID_TIME_FOREVER, value_eq, clone_facts, Node, NodeV,
    Edge, EdgeV};
use crate::ids::EntityId;

verus! {

#[verifier::external_type_specification]
#[verifier::external_body]
pub struct ExSystemTime(std::time::SystemTime);

#[verifier::external_type_specification]
#[verifier::external_body]
pub struct ExSystemTimeError(std::time::SystemTimeError);

/// `std::time::SystemTime::now`: the current wall-clock time. It depends on
/// the machine's clock, so nothing is stated of it.
#[verifier::external_body]
fn system_now() -> (r: std::time::SystemTime) {
    std::time::SystemTime::now()
}

/// `SystemTime::duration_since` from the Unix epoch: the time elapsed since
/// the epoch, or an error for a time before it. Which of the two comes back
/// depends on the clock, so nothing is stated of it.
#[verifier::external_body]
fn since_epoch(t: &std::time::SystemTime) -> (r: Result<std::time::Duration, std::time::SystemTimeError>) {
    t.duration_since(std::time::UNIX_EPOCH)
}

/// `Duration::as_millis`: the whole milliseconds of a duration. A duration
/// is opaque here, so nothing is stated of the number.
#[verifier::external_body]
fn duration_millis(d: &std::time::Duration) -> (r: u128) {
    d.as_millis()
}

/// The wall-clock time in milliseconds since the Unix epoch, truncated to 64
/// bits; 0 for a clock set before the epoch.
pub(crate) fn tx_id_now() -> (r: u64) {
    match since_epoch(&system_now()) {
        Ok(d) => {
            let ms = duration_millis(&d);
            #[verifier::truncate]
            (ms as u64)
        },
        Err(_) => 0,
    }
}

/// Transaction identifier: wall-clock milliseconds at which it was recorded.
pub type TxId = u64;

/// Valid-time options of a transaction or of one fact.
#[derive(Debug, Clone, Copy, PartialEq, Eq, Structural)]
pub struct TransactOptions {
    pub valid_from: Option<i64>,
    pub valid_to: Option<i64>,
}

impl TransactOptions {
    pub fn new(valid_from: Option<i64>, valid_to: Option<i64>) -> (r: Self)
        ensures
            r.valid_from == valid_from,
            r.valid_to == valid_to,
    {
        TransactOptions { valid_from, valid_to }
    }
}

/// The record stored for an asserted fact: valid from the given time (by
/// default the transaction's time) until the given time (by default forever).
pub open spec fn assertion_record(
    e: EntityId,
    a: String,
    v: Value,
    opts: Option<TransactOptions>,
    tx_id: u64,
    tx_count: u64,
) -> Fact {
    Fact {
        entity: e,
        attribute: a,
        value: v,
        tx_id,
        tx_count,
        valid_from: match opts {
            Some(o) => match o.valid_from { Some(f) => f, None => tx_id as i64 },
            None => tx_id as i64,
        },
        valid_to: match opts {
            Some(o) => match o.valid_to { Some(t) => t, None => VALID_TIME_FOREVER },
            None => VALID_TIME_FOREVER,
        },
        asserted: true,
    }
}

/// The record stored for a retraction.
pub open spec fn retraction_record(e: EntityId, a: String, v: Value, tx_id: u64, tx_count: u64) -> Fact {
    Fact {
        entity: e,
        attribute: a,
        value: v,
        tx_id,
        tx_count,
        valid_from: tx_id as i64,
        valid_to: VALID_TIME_FOREVER,
        asserted: false,
    }
}

/// Whether two records are about the same entity, attribute and value.
pub open spec fn same_triple(a: Fact, b: Fact) -> bool {
    a.entity == b.entity && a.attribute@ == b.attribute@ && a.value@ == b.value@
}

/// Whether record `i` of `fs` survives in the net-asserted view: it is an
/// assertion and no record of the same triple has a later transaction count.
pub open spec fn net_kept(fs: Seq<Fact>, i: int) -> bool {
    fs[i].asserted && forall|j: int| 0 <= j < fs.len() && #[trigger] same_triple(fs[j], fs[i])
        ==> fs[j].tx_count <= fs[i].tx_count
}

/// The records of `fs[0..k]` that survive in the net-asserted view of all of
/// `fs`, in order.
pub open spec fn net_prefix(fs: Seq<Fact>, k: int) -> Seq<Fact>
    decreases k,
{
    if k <= 0 {
        Seq::empty()
    } else if net_kept(fs, k - 1) {
        net_prefix(fs, k - 1).push(fs[k - 1])
    } else {
        net_prefix(fs, k - 1)
    }
}

/// The net-asserted view: for each (entity, attribute, value) triple, the
/// assertion records whose transaction count is the highest for that triple.
pub open spec fn net_asserted(fs: Seq<Fact>) -> Seq<Fact> {
    net_prefix(fs, fs.len() as int)
}

/// The records of `fs` (in order) that are not about the same triple as `r`.
pub open spec fn without_triple(fs: Seq<Fact>, r: Fact) -> Seq<Fact>
    decreases fs.len(),
{
    if fs.len() == 0 {
        Seq::empty()
    } else if same_triple(fs.last(), r) {
        without_triple(fs.drop_last(), r)
    } else {
        without_triple(fs.drop_last(), r).push(fs.last())
    }
}

/// Appending an assertion with a higher transaction count than every record
/// hides the earlier records of its triple and adds it last to the
/// net-asserted view.
pub proof fn lemma_net_asserted_push(fs: Seq<Fact>, r: Fact)
    requires
        r.asserted,
        forall|j: int| 0 <= j < fs.len() ==> #[trigger] fs[j].tx_count < r.tx_count,
    ensures
        net_asserted(fs.push(r)) == without_triple(net_asserted(fs), r).push(r),
{
    let gs = fs.push(r);
    let n = fs.len() as int;
    assert forall|i: int| 0 <= i < n implies #[trigger] net_kept(gs, i) == (net_kept(fs, i) && !same_triple(
        fs[i],
        r,
    )) by {
        assert(gs[i] == fs[i]);
        if same_triple(fs[i], r) {
            assert(same_triple(gs[n], gs[i]));
        }
        if net_kept(fs, i) && !same_triple(fs[i], r) {
            assert forall|j: int| 0 <= j < gs.len() && #[trigger] same_triple(gs[j], gs[i]) implies gs[j].tx_count
                <= gs[i].tx_count by {
                if j < n {
                    assert(gs[j] == fs[j]);
                    assert(same_triple(fs[j], fs[i]));
                }
            }
        }
        if net_kept(gs, i) {
            assert forall|j: int| 0 <= j < fs.len() && #[trigger] same_triple(fs[j], fs[i]) implies fs[j].tx_count
                <= fs[i].tx_count by {
                assert(gs[j] == fs[j]);
                assert(same_triple(gs[j], gs[i]));
            }
        }
    }
    assert forall|j: int| 0 <= j < gs.len() && #[trigger] same_triple(gs[j], gs[n]) implies gs[j].tx_count
        <= gs[n].tx_count by {
        if j < n {
            assert(gs[j] == fs[j]);
        }
    }
    assert(net_kept(gs, n));
    lemma_net_prefix_push(fs, r, n);
    assert(net_prefix(gs, n + 1) == net_prefix(gs, n).push(gs[n]));
}

/// Appending an assertion of a triple that no record has yet adds it last
/// to the net-asserted view.
pub proof fn lemma_net_asserted_push_new(fs: Seq<Fact>, r: Fact)
    requires
        r.asserted,
        forall|j: int| 0 <= j < fs.len() ==> !same_triple(#[trigger] fs[j], r),
    ensures
        net_asserted(fs.push(r)) == net_asserted(fs).push(r),
{
    let gs = fs.push(r);
    let n = fs.len() as int;
    assert forall|i: int| 0 <= i < n implies #[trigger] net_kept(gs, i) == net_kept(fs, i) by {
        assert(gs[i] == fs[i]);
        if net_kept(fs, i) {
            assert forall|j: int| 0 <= j < gs.len() && #[trigger] same_triple(gs[j], gs[i]) implies gs[j].tx_count
                <= gs[i].tx_count by {
                if j < n {
                    assert(gs[j] == fs[j]);
                    assert(same_triple(fs[j], fs[i]));
                } else {
                    assert(gs[j] == r);
                    assert(!same_triple(fs[i], r));
                }
            }
        }
        if net_kept(gs, i) {
            assert forall|j: int| 0 <= j < fs.len() && #[trigger] same_triple(fs[j], fs[i]) implies fs[j].tx_count
                <= fs[i].tx_count by {
                assert(gs[j] == fs[j]);
                assert(same_triple(gs[j], gs[i]));
            }
        }
    }
    assert forall|j: int| 0 <= j < gs.len() && #[trigger] same_triple(gs[j], gs[n]) implies gs[j].tx_count
        <= gs[n].tx_count by {
        if j < n {
            assert(gs[j] == fs[j]);
            assert(!same_triple(fs[j], r));
        }
    }
    assert(net_kept(gs, n));
    lemma_net_prefix_same(fs, r, n);
    assert(net_prefix(gs, n + 1) == net_prefix(gs, n).push(gs[n]));
}

proof fn lemma_net_prefix_same(fs: Seq<Fact>, r: Fact, k: int)
    requires
        0 <= k <= fs.len(),
        forall|i: int| 0 <= i < fs.len() ==> #[trigger] net_kept(fs.push(r), i) == net_kept(fs, i),
    ensures
        net_prefix(fs.push(r), k) == net_prefix(fs, k),
    decreases k,
{
    if k > 0 {
        lemma_net_prefix_same(fs, r, k - 1);
        assert(fs.push(r)[k - 1] == fs[k - 1]);
        assert(net_kept(fs.push(r), k - 1) == net_kept(fs, k - 1));
    }
}

/// A record of same triple as `x` among `fs[0..k]` with the highest
/// transaction count, when there is one.
proof fn lemma_max_same_upto(fs: Seq<Fact>, x: Fact, k: int) -> (j: int)
    requires
        0 <= k <= fs.len(),
    ensures
        (exists|m: int| 0 <= m < k && #[trigger] same_triple(fs[m], x)) ==> 0 <= j < k && same_triple(fs[j], x)
            && forall|m: int| 0 <= m < k && #[trigger] same_triple(fs[m], x) ==> fs[m].tx_count <= fs[j].tx_count,
    decreases k,
{
    if k == 0 {
        -1
    } else {
        let j0 = lemma_max_same_upto(fs, x, k - 1);
        let earlier = exists|m: int| 0 <= m < k - 1 && #[trigger] same_triple(fs[m], x);
        if same_triple(fs[k - 1], x) && (!earlier || fs[k - 1].tx_count >= fs[j0].tx_count) {
            k - 1
        } else {
            if !same_triple(fs[k - 1], x) && (exists|m: int| 0 <= m < k && #[trigger] same_triple(fs[m], x)) {
                let m = choose|m: int| 0 <= m < k && #[trigger] same_triple(fs[m], x);
                assert(m < k - 1);
            }
            j0
        }
    }
}

/// When every record is an assertion, the triple of each record is in the
/// net-asserted view.
pub proof fn lemma_asserted_visible(fs: Seq<Fact>, i: int)
    requires
        0 <= i < fs.len(),
        forall|j: int| 0 <= j < fs.len() ==> (#[trigger] fs[j]).asserted,
    ensures
        exists|m: int| 0 <= m < net_asserted(fs).len() && same_triple(#[trigger] net_asserted(fs)[m], fs[i]),
{
    let x = fs[i];
    assert(same_triple(fs[i], x));
    let j = lemma_max_same_upto(fs, x, fs.len() as int);
    assert forall|m: int| 0 <= m < fs.len() && #[trigger] same_triple(fs[m], fs[j]) implies fs[m].tx_count
        <= fs[j].tx_count by {
        assert(same_triple(fs[m], x));
    }
    assert(net_kept(fs, j));
    lemma_net_prefix_contains(fs, fs.len() as int, j);
    let w = choose|w: int| 0 <= w < net_asserted(fs).len() && net_asserted(fs)[w] == fs[j];
    assert(same_triple(net_asserted(fs)[w], fs[i]));
}

proof fn lemma_net_prefix_push(fs: Seq<Fact>, r: Fact, k: int)
    requires
        0 <= k <= fs.len(),
        forall|i: int| 0 <= i < fs.len() ==> #[trigger] net_kept(fs.push(r), i) == (net_kept(fs, i)
            && !same_triple(fs[i], r)),
    ensures
        net_prefix(fs.push(r), k) == without_triple(net_prefix(fs, k), r),
    decreases k,
{
    if k > 0 {
        lemma_net_prefix_push(fs, r, k - 1);
        assert(fs.push(r)[k - 1] == fs[k - 1]);
        assert(net_kept(fs.push(r), k - 1) == (net_kept(fs, k - 1) && !same_triple(fs[k - 1], r)));
        if net_kept(fs, k - 1) {
            let p = net_prefix(fs, k - 1).push(fs[k - 1]);
            assert(p.drop_last() =~= net_prefix(fs, k - 1));
        }
    }
}

/// Whether `x` is a kept record of `fs[0..k]`.
spec fn kept_record(fs: Seq<Fact>, k: int, x: Fact) -> bool {
    exists|i: int| #![trigger fs[i]] 0 <= i < k && net_kept(fs, i) && x == fs[i]
}

/// Each record of the net-asserted prefix is a kept record of `fs[0..k]`.
proof fn lemma_net_prefix_members(fs: Seq<Fact>, k: int)
    requires
        0 <= k <= fs.len(),
    ensures
        forall|m: int| 0 <= m < net_prefix(fs, k).len() ==> kept_record(fs, k, #[trigger] net_prefix(fs, k)[m]),
    decreases k,
{
    if k > 0 {
        lemma_net_prefix_members(fs, k - 1);
        let prev = net_prefix(fs, k - 1);
        assert forall|m: int| 0 <= m < net_prefix(fs, k).len() implies kept_record(fs, k, #[trigger] net_prefix(fs, k)[m]) by {
            if m < prev.len() {
                assert(net_prefix(fs, k)[m] == prev[m]);
                assert(kept_record(fs, k - 1, prev[m]));
                let i = choose|i: int| #![trigger fs[i]] 0 <= i < k - 1 && net_kept(fs, i) && prev[m] == fs[i];
                assert(net_prefix(fs, k)[m] == fs[i]);
            } else {
                assert(net_prefix(fs, k)[m] == fs[k - 1]);
            }
        }
    } else {
        assert(net_prefix(fs, k).len() == 0);
    }
}

/// A kept record of `fs[0..k]` is in the net-asserted prefix.
proof fn lemma_net_prefix_contains(fs: Seq<Fact>, k: int, i: int)
    requires
        0 <= i < k <= fs.len(),
        net_kept(fs, i),
    ensures
        net_prefix(fs, k).contains(fs[i]),
    decreases k,
{
    if i == k - 1 {
        assert(net_prefix(fs, k).last() == fs[i]);
    } else {
        lemma_net_prefix_contains(fs, k - 1, i);
        let w = choose|w: int| 0 <= w < net_prefix(fs, k - 1).len() && #[trigger] net_prefix(fs, k - 1)[w] == fs[i];
        assert(net_prefix(fs, k)[w] == fs[i]);
    }
}

/// Every record of the net-asserted view is an assertion record of the log,
/// and no record of the log about the same triple has a later transaction
/// count.
pub proof fn lemma_net_asserted_members(fs: Seq<Fact>)
    ensures
        forall|f: Fact| #[trigger] net_asserted(fs).contains(f) ==> {
            &&& fs.contains(f)
            &&& f.asserted
            &&& forall|j: int| 0 <= j < fs.len() && same_triple(fs[j], f) ==> fs[j].tx_count <= f.tx_count
        },
{
    lemma_net_prefix_members(fs, fs.len() as int);
    assert forall|f: Fact| #[trigger] net_asserted(fs).contains(f) implies {
        &&& fs.contains(f)
        &&& f.asserted
        &&& forall|j: int| 0 <= j < fs.len() && same_triple(fs[j], f) ==> fs[j].tx_count <= f.tx_count
    } by {
        let m = choose|m: int| 0 <= m < net_asserted(fs).len() && net_asserted(fs)[m] == f;
        assert(kept_record(fs, fs.len() as int, net_asserted(fs)[m]));
        let i = choose|i: int| #![trigger fs[i]] 0 <= i < fs.len() && net_kept(fs, i) && f == fs[i];
        assert(fs[i] == f);
    }
}

/// The as-of selection keeps exactly the records that pass it: those with a
/// transaction count up to the counter, or a transaction time up to the
/// time.
pub proof fn lemma_as_of_members(fs: Seq<Fact>, counter: Option<u64>, time: Option<i64>)
    ensures
        forall|f: Fact| #[trigger] as_of_prefix(fs, counter, time, fs.len() as int).contains(f) <==> fs.contains(f)
            && match counter {
                Some(n) => f.tx_count <= n,
                None => match time {
                    Some(t) => f.tx_id as int <= t,
                    None => true,
                },
            },
{
    lemma_as_of_members_upto(fs, counter, time, fs.len() as int);
    assert forall|f: Fact| fs.contains(f) implies exists|w: int| #![trigger fs[w]] 0 <= w < fs.len() && fs[w] == f by {
        let w = choose|w: int| 0 <= w < fs.len() && fs[w] == f;
        assert(fs[w] == f);
    }
}

proof fn lemma_as_of_members_upto(fs: Seq<Fact>, counter: Option<u64>, time: Option<i64>, k: int)
    requires
        0 <= k <= fs.len(),
    ensures
        forall|f: Fact| #[trigger] as_of_prefix(fs, counter, time, k).contains(f) <==> (exists|w: int|
            #![trigger fs[w]]
            0 <= w < k && fs[w] == f) && as_of_kept(f, counter, time),
    decreases k,
{
    if k > 0 {
        lemma_as_of_members_upto(fs, counter, time, k - 1);
        let prev = as_of_prefix(fs, counter, time, k - 1);
        let cur = as_of_prefix(fs, counter, time, k);
        assert forall|f: Fact| #[trigger] cur.contains(f) <==> (exists|w: int| #![trigger fs[w]] 0 <= w < k && fs[w] == f)
            && as_of_kept(f, counter, time) by {
            if cur.contains(f) {
                let m = choose|m: int| 0 <= m < cur.len() && cur[m] == f;
                if m < prev.len() {
                    assert(prev[m] == f);
                    assert(prev.contains(f));
                    let w = choose|w: int| #![trigger fs[w]] 0 <= w < k - 1 && fs[w] == f;
                    assert(fs[w] == f);
                } else {
                    assert(f == fs[k - 1]);
                }
            }
            if (exists|w: int| #![trigger fs[w]] 0 <= w < k && fs[w] == f) && as_of_kept(f, counter, time) {
                let w = choose|w: int| #![trigger fs[w]] 0 <= w < k && fs[w] == f;
                if w < k - 1 {
                    assert(fs[w] == f);
                    assert(prev.contains(f));
                    let m = choose|m: int| 0 <= m < prev.len() && prev[m] == f;
                    if as_of_kept(fs[k - 1], counter, time) {
                        assert(cur[m] == f);
                    } else {
                        assert(cur == prev);
                    }
                } else {
                    assert(fs[k - 1] == f);
                    assert(cur[cur.len() - 1] == f);
                }
            }
        }
    }
}

/// Retractions hide their triples: when a batch of retraction records,
/// with a transaction count above every earlier record's, is appended, no
/// record of the net-asserted view is about a retracted triple.
pub proof fn lemma_retraction_hides(fs: Seq<Fact>, rs: Seq<Fact>)
    requires
        forall|k: int| 0 <= k < rs.len() ==> !(#[trigger] rs[k]).asserted,
        forall|j: int, k: int| 0 <= j < fs.len() && 0 <= k < rs.len() ==> #[trigger] fs[j].tx_count < #[trigger] rs[k].tx_count,
    ensures
        forall|m: int, k: int| 0 <= m < net_asserted(fs + rs).len() && 0 <= k < rs.len() ==> !same_triple(
            #[trigger] net_asserted(fs + rs)[m],
            #[trigger] rs[k],
        ),
{
    let gs = fs + rs;
    lemma_net_prefix_members(gs, gs.len() as int);
    assert forall|m: int, k: int| 0 <= m < net_asserted(gs).len() && 0 <= k < rs.len() implies !same_triple(
        #[trigger] net_asserted(gs)[m],
        #[trigger] rs[k],
    ) by {
        assert(kept_record(gs, gs.len() as int, net_prefix(gs, gs.len() as int)[m]));
        let i = choose|i: int| #![trigger gs[i]] 0 <= i < gs.len() && net_kept(gs, i) && net_prefix(gs, gs.len() as int)[m] == gs[i];
        if same_triple(gs[i], rs[k]) {
            let n = fs.len() as int;
            assert(gs[n + k] == rs[k]);
            assert(same_triple(gs[n + k], gs[i]));
            if i >= n {
                assert(gs[i] == rs[i - n]);
            } else {
                assert(gs[i] == fs[i]);
            }
        }
    }
}

/// Assertions become visible: when a batch of assertion records, all with
/// one transaction count above every earlier record's, is appended, each of
/// them is in the net-asserted view.
pub proof fn lemma_assertion_visible(fs: Seq<Fact>, rs: Seq<Fact>, k: int)
    requires
        0 <= k < rs.len(),
        rs[k].asserted,
        forall|a: int, b: int| 0 <= a < rs.len() && 0 <= b < rs.len() ==> #[trigger] rs[a].tx_count == #[trigger] rs[b].tx_count,
        forall|j: int| 0 <= j < fs.len() ==> #[trigger] fs[j].tx_count < rs[k].tx_count,
    ensures
        net_asserted(fs + rs).contains(rs[k]),
{
    let gs = fs + rs;
    let n = fs.len() as int;
    assert(gs[n + k] == rs[k]);
    assert forall|j: int| 0 <= j < gs.len() && #[trigger] same_triple(gs[j], gs[n + k]) implies gs[j].tx_count
        <= gs[n + k].tx_count by {
        if j < n {
            assert(gs[j] == fs[j]);
        } else {
            assert(gs[j] == rs[j - n]);
        }
    }
    lemma_net_prefix_contains(gs, gs.len() as int, n + k);
}

/// Past states are stable: records appended after the selected point (by
/// transaction counter, or by transaction time) leave the records selected
/// as of that point unchanged.
pub proof fn lemma_as_of_stable(fs: Seq<Fact>, later: Seq<Fact>, counter: Option<u64>, time: Option<i64>)
    requires
        forall|k: int| 0 <= k < later.len() ==> !as_of_kept(#[trigger] later[k], counter, time),
    ensures
        as_of_prefix(fs + later, counter, time, (fs + later).len() as int) == as_of_prefix(fs, counter, time, fs.len() as int),
    decreases later.len(),
{
    if later.len() == 0 {
        assert(fs + later =~= fs);
    } else {
        let l2 = later.drop_last();
        lemma_as_of_stable(fs, l2, counter, time);
        let gs = fs + later;
        let k = (fs + l2).len() as int;
        assert(gs[k] == later[later.len() - 1]);
        lemma_as_of_prefix_sub(gs, counter, time, k, k);
        assert(gs.subrange(0, k) =~= fs + l2);
    }
}

proof fn lemma_as_of_prefix_sub(gs: Seq<Fact>, counter: Option<u64>, time: Option<i64>, k: int, m: int)
    requires
        0 <= k <= m <= gs.len(),
    ensures
        as_of_prefix(gs, counter, time, k) == as_of_prefix(gs.subrange(0, m), counter, time, k),
    decreases k,
{
    if k > 0 {
        lemma_as_of_prefix_sub(gs, counter, time, k - 1, m);
        assert(gs.subrange(0, m)[k - 1] == gs[k - 1]);
    }
}

/// The records that `:as-of` selects: by transaction counter or by time.
pub open spec fn as_of_kept(f: Fact, counter: Option<u64>, time: Option<i64>) -> bool {
    match counter {
        Some(n) => f.tx_count <= n,
        None => match time {
            Some(t) => f.tx_id as int <= t,
            None => true,
        },
    }
}

/// Facts of `fs` (in order) that pass the as-of selection.
pub open spec fn as_of_prefix(fs: Seq<Fact>, counter: Option<u64>, time: Option<i64>, k: int) -> Seq<Fact>
    decreases k,
{
    if k <= 0 {
        Seq::empty()
    } else if as_of_kept(fs[k - 1], counter, time) {
        as_of_prefix(fs, counter, time, k - 1).push(fs[k - 1])
    } else {
        as_of_prefix(fs, counter, time, k - 1)
    }
}

/// Computes the net-asserted view of a list of records.
pub fn net_asserted_facts(facts: Vec<Fact>) -> (r: Vec<Fact>)
    ensures
        r@ == net_asserted(facts@),
{
    let mut out: Vec<Fact> = Vec::new();
    let mut i: usize = 0;
    while i < facts.len()
        invariant
            i <= facts.len(),
            out@ == net_prefix(facts@, i as int),
        decreases facts.len() - i,
    {
        let mut keep = facts[i].asserted;
        let mut j: usize = 0;
        while j < facts.len()
            invariant
                i < facts.len(),
                j <= facts.len(),
                keep == (facts@[i as int].asserted && forall|q: int| 0 <= q < j
                    && #[trigger] same_triple(facts@[q], facts@[i as int]) ==> facts@[q].tx_count <= facts@[i as int].tx_count),
            decreases facts.len() - j,
        {
            if facts[j].entity == facts[i].entity && facts[j].attribute == facts[i].attribute
                && value_eq(&facts[j].value, &facts[i].value) && facts[j].tx_count > facts[i].tx_count {
                assert(same_triple(facts@[j as int], facts@[i as int]));
                keep = false;
            }
            j = j + 1;
        }
        if keep {
            out.push(facts[i].clone());
        }
        i = i + 1;
    }
    out
}

/// The message of a transaction refused because the counter is exhausted.
pub open spec fn counter_exhausted_error() -> Seq<char> {
    "transaction counter exhausted"@
}

/// The highest of `c` and the records' transaction counts.
pub open spec fn max_count(fs: Seq<Fact>, c: int) -> int
    decreases fs.len(),
{
    if fs.len() == 0 {
        c
    } else {
        let m = max_count(fs.drop_last(), c);
        if fs.last().tx_count > m { fs.last().tx_count as int } else { m }
    }
}

/// In-memory fact storage: an append-only log of records.
#[derive(Debug)]
pub struct FactStorage {
    facts: Vec<Fact>,
    tx_counter: u64,
}

impl Clone for FactStorage {
    fn clone(&self) -> (r: Self)
        ensures
            r.records() == self.records(),
            r.counter() == self.counter(),
    {
        FactStorage { facts: clone_facts(&self.facts), tx_counter: self.tx_counter }
    }
}

impl FactStorage {
    /// All records, in the order they were written.
    pub closed spec fn records(&self) -> Seq<Fact> {
        self.facts@
    }

    /// The count of the last transaction (0 before any).
    pub closed spec fn counter(&self) -> u64 {
        self.tx_counter
    }

    /// Empty storage.
    pub fn new() -> (r: Self)
        ensures
            r.records() == Seq::<Fact>::empty(),
            r.counter() == 0,
    {
        FactStorage { facts: Vec::new(), tx_counter: 0 }
    }

    /// Appends one record as is (used to build derived-fact stores).
    pub fn load_fact(&mut self, fact: Fact)
        ensures
            final(self).records() == old(self).records().push(fact),
            final(self).counter() == old(self).counter(),
    {
        self.facts.push(fact);
    }

    /// Raises the transaction counter to the highest count among the records
    /// (after records were loaded as they are).
    pub fn restore_tx_counter(&mut self)
        ensures
            final(self).records() == old(self).records(),
            final(self).counter() as int == max_count(old(self).records(), old(self).counter() as int),
    {
        let mut c = self.tx_counter;
        let mut i: usize = 0;
        while i < self.facts.len()
            invariant
                i <= self.facts@.len(),
                c as int == max_count(self.facts@.subrange(0, i as int), self.tx_counter as int),
            decreases self.facts.len() - i,
        {
            assert(self.facts@.subrange(0, i + 1).drop_last() =~= self.facts@.subrange(0, i as int));
            if self.facts[i].tx_count > c {
                c = self.facts[i].tx_count;
            }
            i = i + 1;
        }
        assert(self.facts@.subrange(0, self.facts@.len() as int) =~= self.facts@);
        self.tx_counter = c;
    }

    /// Records a batch of assertions under one new transaction (count and
    /// time); each fact's own options, when given, replace the batch options.
    /// Fails only when the transaction counter is exhausted.
    pub fn transact_batch(
        &mut self,
        facts: Vec<(EntityId, String, Value, Option<TransactOptions>)>,
        tx_opts: Option<TransactOptions>,
    ) -> (r: Result<TxId, String>)
        ensures
            old(self).counter() == u64::MAX ==> (r matches Err(m) && m@ == counter_exhausted_error()
                && final(self).records() == old(self).records() && final(self).counter() == old(self).counter()),
            old(self).counter() < u64::MAX ==> r is Ok,
            r matches Ok(tx_id) ==> {
                &&& final(self).counter() == old(self).counter() + 1
                &&& final(self).records() == old(self).records() + Seq::new(
                    facts@.len(),
                    |i: int| assertion_record(
                        facts@[i].0,
                        facts@[i].1,
                        facts@[i].2,
                        if facts@[i].3 is Some { facts@[i].3 } else { tx_opts },
                        tx_id,
                        final(self).counter(),
                    ),
                )
            },
    {
        if self.tx_counter == u64::MAX {
            return Err(crate::text::to_owned_string("transaction counter exhausted"));
        }
        let tx_id = tx_id_now();
        let count = self.tx_counter + 1;
        let ghost start = self.facts@;
        let ghost all = facts@;
        let mut facts = facts;
        let n = facts.len();
        let mut k: usize = 0;
        while k < n
            invariant
                n == all.len(),
                k <= n,
                facts@ == all.subrange(k as int, n as int),
                self.facts@ == start + Seq::new(
                    k as nat,
                    |i: int| assertion_record(
                        all[i].0,
                        all[i].1,
                        all[i].2,
                        if all[i].3 is Some { all[i].3 } else { tx_opts },
                        tx_id,
                        count,
                    ),
                ),
            decreases n - k,
        {
            let (e, a, v, o) = facts.remove(0);
            let opts = if o.is_some() { o } else { tx_opts };
            let valid_from = match opts {
                Some(op) => match op.valid_from {
                    Some(f) => f,
                    None => tx_id as i64,
                },
                None => tx_id as i64,
            };
            let valid_to = match opts {
                Some(op) => match op.valid_to {
                    Some(t) => t,
                    None => VALID_TIME_FOREVER,
                },
                None => VALID_TIME_FOREVER,
            };
            self.facts.push(Fact {
                entity: e,
                attribute: a,
                value: v,
                tx_id,
                tx_count: count,
                valid_from,
                valid_to,
                asserted: true,
            });
            k = k + 1;
            proof {
                assert(facts@ =~= all.subrange(k as int, n as int));
                let expect = start + Seq::new(
                    k as nat,
                    |i: int| assertion_record(
                        all[i].0,
                        all[i].1,
                        all[i].2,
                        if all[i].3 is Some { all[i].3 } else { tx_opts },
                        tx_id,
                        count,
                    ),
                );
                assert(self.facts@ =~= expect);
            }
        }
        self.tx_counter = count;
        Ok(tx_id)
    }

    /// Records a batch of assertions under one new transaction, all with the
    /// same valid-time options.
    pub fn transact(&mut self, facts: Vec<(EntityId, String, Value)>, opts: Option<TransactOptions>) -> (r:
        Result<TxId, String>)
        ensures
            old(self).counter() == u64::MAX ==> (r matches Err(m) && m@ == counter_exhausted_error()
                && final(self).records() == old(self).records() && final(self).counter() == old(self).counter()),
            old(self).counter() < u64::MAX ==> r is Ok,
            r matches Ok(tx_id) ==> {
                &&& final(self).counter() == old(self).counter() + 1
                &&& final(self).records() == old(self).records() + Seq::new(
                    facts@.len(),
                    |i: int| assertion_record(facts@[i].0, facts@[i].1, facts@[i].2, opts, tx_id, final(self).counter()),
                )
            },
    {
        let ghost all = facts@;
        let mut facts = facts;
        let mut batch: Vec<(EntityId, String, Value, Option<TransactOptions>)> = Vec::new();
        let n = facts.len();
        let mut k: usize = 0;
        while k < n
            invariant
                n == all.len(),
                k <= n,
                facts@ == all.subrange(k as int, n as int),
                batch@.len() == k,
                forall|i: int| 0 <= i < k ==> #[trigger] batch@[i] == (all[i].0, all[i].1, all[i].2, None::<TransactOptions>),
            decreases n - k,
        {
            let (e, a, v) = facts.remove(0);
            batch.push((e, a, v, None));
            k = k + 1;
            assert(facts@ =~= all.subrange(k as int, n as int));
        }
        let r = self.transact_batch(batch, opts);
        proof {
            if let Ok(tx_id) = r {
                let s1 = Seq::new(
                    batch@.len(),
                    |i: int| assertion_record(
                        batch@[i].0,
                        batch@[i].1,
                        batch@[i].2,
                        if batch@[i].3 is Some { batch@[i].3 } else { opts },
                        tx_id,
                        self.counter(),
                    ),
                );
                let s2 = Seq::new(
                    all.len(),
                    |i: int| assertion_record(all[i].0, all[i].1, all[i].2, opts, tx_id, self.counter()),
                );
                assert(s1 =~= s2);
            }
        }
        r
    }

    /// Records retractions of the given triples under one new transaction.
    pub fn retract(&mut self, facts: Vec<(EntityId, String, Value)>) -> (r: Result<TxId, String>)
        ensures
            old(self).counter() == u64::MAX ==> (r matches Err(m) && m@ == counter_exhausted_error()
                && final(self).records() == old(self).records() && final(self).counter() == old(self).counter()),
            old(self).counter() < u64::MAX ==> r is Ok,
            r matches Ok(tx_id) ==> {
                &&& final(self).counter() == old(self).counter() + 1
                &&& final(self).records() == old(self).records() + Seq::new(
                    facts@.len(),
                    |i: int| retraction_record(facts@[i].0, facts@[i].1, facts@[i].2, tx_id, final(self).counter()),
                )
            },
    {
        if self.tx_counter == u64::MAX {
            return Err(crate::text::to_owned_string("transaction counter exhausted"));
        }
        let tx_id = tx_id_now();
        let count = self.tx_counter + 1;
        let ghost start = self.facts@;
        let ghost all = facts@;
        let mut facts = facts;
        let n = facts.len();
        let mut k: usize = 0;
        while k < n
            invariant
                n == all.len(),
                k <= n,
                facts@ == all.subrange(k as int, n as int),
                self.facts@ == start + Seq::new(
                    k as nat,
                    |i: int| retraction_record(all[i].0, all[i].1, all[i].2, tx_id, count),
                ),
            decreases n - k,
        {
            let (e, a, v) = facts.remove(0);
            self.facts.push(Fact {
                entity: e,
                attribute: a,
                value: v,
                tx_id,
                tx_count: count,
                valid_from: tx_id as i64,
                valid_to: VALID_TIME_FOREVER,
                asserted: false,
            });
            k = k + 1;
            proof {
                assert(facts@ =~= all.subrange(k as int, n as int));
                let expect = start + Seq::new(
                    k as nat,
                    |i: int| retraction_record(all[i].0, all[i].1, all[i].2, tx_id, count),
                );
                assert(self.facts@ =~= expect);
            }
        }
        self.tx_counter = count;
        Ok(tx_id)
    }

    /// All records, in order.
    pub fn get_all_facts(&self) -> (r: Vec<Fact>)
        ensures
            r@ == self.records(),
    {
        clone_facts(&self.facts)
    }

    /// The records up to a transaction counter (`Some(n)`, first) or time.
    pub fn get_facts_as_of_parts(&self, counter: Option<u64>, time: Option<i64>) -> (r: Vec<Fact>)
        ensures
            r@ == as_of_prefix(self.records(), counter, time, self.records().len() as int),
    {
        let mut out: Vec<Fact> = Vec::new();
        let mut i: usize = 0;
        while i < self.facts.len()
            invariant
                i <= self.facts.len(),
                out@ == as_of_prefix(self.facts@, counter, time, i as int),
            decreases self.facts.len() - i,
        {
            let f = &self.facts[i];
            let keep = match counter {
                Some(n) => f.tx_count <= n,
                None => match time {
                    Some(t) => (f.tx_id as i128) <= (t as i128),
                    None => true,
                },
            };
            if keep {
                out.push(f.clone());
            }
            i = i + 1;
        }
        out
    }

    /// The net-asserted view of all records.
    pub fn get_asserted_facts(&self) -> (r: Vec<Fact>)
        ensures
            r@ == net_asserted(self.records()),
    {
        net_asserted_facts(clone_facts(&self.facts))
    }

    /// The value of the net-asserted record for (entity, attribute) with the
    /// highest transaction count (the first such record on ties), if any.
    pub fn get_current_value(&self, entity: &EntityId, attribute: &String) -> (r: Option<Value>)
        ensures
            r is None <==> forall|i: int| 0 <= i < net_asserted(self.records()).len() ==>
                !(#[trigger] net_asserted(self.records())[i].entity == *entity
                && net_asserted(self.records())[i].attribute@ == attribute@),
            r matches Some(v) ==> exists|i: int| 0 <= i < net_asserted(self.records()).len()
                && net_asserted(self.records())[i].entity == *entity
                && net_asserted(self.records())[i].attribute@ == attribute@
                && net_asserted(self.records())[i].value == v
                && forall|j: int| 0 <= j < net_asserted(self.records()).len()
                    && net_asserted(self.records())[j].entity == *entity
                    && #[trigger] net_asserted(self.records())[j].attribute@ == attribute@
                    ==> net_asserted(self.records())[j].tx_count <= net_asserted(self.records())[i].tx_count,
    {
        let net = self.get_asserted_facts();
        let ghost ns = net@;
        let mut best: Option<usize> = None;
        let mut i: usize = 0;
        while i < net.len()
            invariant
                i <= net.len(),
                ns == net@,
                best is None ==> forall|j: int| 0 <= j < i ==> !(#[trigger] ns[j].entity == *entity && ns[j].attribute@ == attribute@),
                best matches Some(b) ==> b < i && ns[b as int].entity == *entity && ns[b as int].attribute@ == attribute@
                    && forall|j: int| 0 <= j < i && ns[j].entity == *entity && #[trigger] ns[j].attribute@ == attribute@
                        ==> ns[j].tx_count <= ns[b as int].tx_count,
            decreases net.len() - i,
        {
            if net[i].entity == *entity && net[i].attribute == *attribute {
                match best {
                    None => {
                        best = Some(i);
                    },
                    Some(b) => {
                        if net[i].tx_count > net[b].tx_count {
                            best = Some(i);
                        }
                    },
                }
            }
            i = i + 1;
        }
        match best {
            Some(b) => Some(net[b].value.clone()),
            None => None,
        }
    }
}


/// Whether no two nodes of `s` share an identifier.
pub open spec fn node_ids_distinct(s: Seq<NodeV>) -> bool {
    forall|i: int, j: int| 0 <= i < j < s.len() ==> s[i].id != s[j].id
}

/// Whether no two edges of `s` share an identifier.
pub open spec fn edge_ids_distinct(s: Seq<EdgeV>) -> bool {
    forall|i: int, j: int| 0 <= i < j < s.len() ==> s[i].id != s[j].id
}

/// The position of the node with identifier `id` in `s`, if any.
pub open spec fn node_index(s: Seq<NodeV>, id: Seq<char>) -> Option<int> {
    if exists|i: int| 0 <= i < s.len() && s[i].id == id {
        Some(choose|i: int| 0 <= i < s.len() && s[i].id == id)
    } else {
        None
    }
}

/// The position of the edge with identifier `id` in `s`, if any.
pub open spec fn edge_index(s: Seq<EdgeV>, id: Seq<char>) -> Option<int> {
    if exists|i: int| 0 <= i < s.len() && s[i].id == id {
        Some(choose|i: int| 0 <= i < s.len() && s[i].id == id)
    } else {
        None
    }
}

/// `s` with node `n` stored under its identifier, replacing a node with
/// the same identifier or else added last.
pub open spec fn upsert_node(s: Seq<NodeV>, n: NodeV) -> Seq<NodeV> {
    match node_index(s, n.id) {
        Some(i) => s.update(i, n),
        None => s.push(n),
    }
}

/// The node stored under identifier `id`, if any.
pub open spec fn node_lookup(s: Seq<NodeV>, id: Seq<char>) -> Option<NodeV> {
    match node_index(s, id) {
        Some(i) => Some(s[i]),
        None => None,
    }
}

proof fn lemma_node_index_unique(s: Seq<NodeV>, i: int)
    requires
        node_ids_distinct(s),
        0 <= i < s.len(),
    ensures
        node_index(s, s[i].id) == Some(i),
{
    let k = choose|k: int| 0 <= k < s.len() && s[k].id == s[i].id;
    if k != i {
        if k < i {
            assert(s[k].id != s[i].id);
        } else {
            assert(s[i].id != s[k].id);
        }
    }
}

/// A stored node is found under its identifier, and storing it changes what
/// no other identifier finds.
pub proof fn lemma_store_then_lookup(s: Seq<NodeV>, n: NodeV, id: Seq<char>)
    requires
        node_ids_distinct(s),
    ensures
        node_ids_distinct(upsert_node(s, n)),
        node_lookup(upsert_node(s, n), n.id) == Some(n),
        id != n.id ==> node_lookup(upsert_node(s, n), id) == node_lookup(s, id),
{
    let t = upsert_node(s, n);
    match node_index(s, n.id) {
        Some(i) => {
            assert forall|a: int, b: int| 0 <= a < b < t.len() implies t[a].id != t[b].id by {
                if a != i && b != i {
                    assert(t[a] == s[a] && t[b] == s[b]);
                } else if a == i {
                    assert(t[b] == s[b]);
                    assert(s[i].id != s[b].id);
                } else {
                    assert(t[a] == s[a]);
                    assert(s[a].id != s[i].id);
                }
            }
            lemma_node_index_unique(t, i);
            if id != n.id {
                if let Some(j) = node_index(s, id) {
                    assert(j != i);
                    assert(t[j] == s[j]);
                    lemma_node_index_unique(t, j);
                    lemma_node_index_unique(s, j);
                } else {
                    assert forall|j: int| 0 <= j < t.len() implies t[j].id != id by {
                        if j != i {
                            assert(t[j] == s[j]);
                        }
                    }
                }
            }
        },
        None => {
            let m = s.len() as int;
            assert forall|a: int, b: int| 0 <= a < b < t.len() implies t[a].id != t[b].id by {
                assert(t[a] == s[a]);
                if b < m {
                    assert(t[b] == s[b]);
                }
            }
            lemma_node_index_unique(t, m);
            if id != n.id {
                if let Some(j) = node_index(s, id) {
                    assert(t[j] == s[j]);
                    lemma_node_index_unique(t, j);
                    lemma_node_index_unique(s, j);
                } else {
                    assert forall|j: int| 0 <= j < t.len() implies t[j].id != id by {
                        if j < m {
                            assert(t[j] == s[j]);
                        }
                    }
                }
            }
        },
    }
}

/// `s` with edge `e` stored under its identifier, replacing an edge with
/// the same identifier or else added last.
pub open spec fn upsert_edge(s: Seq<EdgeV>, e: EdgeV) -> Seq<EdgeV> {
    match edge_index(s, e.id) {
        Some(i) => s.update(i, e),
        None => s.push(e),
    }
}

/// The nodes and edges of a property graph, each stored under its
/// identifier, in the order in which they were first stored.
#[derive(Debug)]
pub struct GraphStorage {
    nodes: Vec<Node>,
    edges: Vec<Edge>,
}

impl GraphStorage {
    #[verifier::type_invariant]
    spec fn inv(self) -> bool {
        node_ids_distinct(self.nodes@.map_values(|n: Node| n@))
            && edge_ids_distinct(self.edges@.map_values(|e: Edge| e@))
    }

    /// The stored nodes.
    pub closed spec fn nodes(&self) -> Seq<NodeV> {
        self.nodes@.map_values(|n: Node| n@)
    }

    /// The stored edges.
    pub closed spec fn edges(&self) -> Seq<EdgeV> {
        self.edges@.map_values(|e: Edge| e@)
    }

    /// An empty graph.
    pub fn new() -> (r: Self)
        ensures
            r.nodes() == Seq::<NodeV>::empty(),
            r.edges() == Seq::<EdgeV>::empty(),
    {
        let r = GraphStorage { nodes: Vec::new(), edges: Vec::new() };
        assert(r.nodes() =~= Seq::<NodeV>::empty());
        assert(r.edges() =~= Seq::<EdgeV>::empty());
        r
    }

    fn find_node(&self, id: &str) -> (r: Option<usize>)
        ensures
            r matches Some(i) ==> i < self.nodes().len() && node_index(self.nodes(), id@) == Some(i as int),
            r is None ==> node_index(self.nodes(), id@) is None,
    {
        proof { use_type_invariant(self); }
        let mut i: usize = 0;
        while i < self.nodes.len()
            invariant
                i <= self.nodes@.len(),
                node_ids_distinct(self.nodes()),
                forall|j: int| 0 <= j < i ==> self.nodes@[j].id@ != id@,
            decreases self.nodes.len() - i,
        {
            if crate::text::str_is(self.nodes[i].id.as_str(), id) {
                proof {
                    let s = self.nodes();
                    assert(s[i as int].id == id@);
                    let k = choose|k: int| 0 <= k < s.len() && s[k].id == id@;
                    assert(k == i);
                }
                return Some(i);
            }
            i = i + 1;
        }
        proof {
            let s = self.nodes();
            assert forall|k: int| 0 <= k < s.len() implies s[k].id != id@ by {
                assert(s[k].id == self.nodes@[k].id@);
            }
        }
        None
    }

    fn find_edge(&self, id: &str) -> (r: Option<usize>)
        ensures
            r matches Some(i) ==> i < self.edges().len() && edge_index(self.edges(), id@) == Some(i as int),
            r is None ==> edge_index(self.edges(), id@) is None,
    {
        proof { use_type_invariant(self); }
        let mut i: usize = 0;
        while i < self.edges.len()
            invariant
                i <= self.edges@.len(),
                edge_ids_distinct(self.edges()),
                forall|j: int| 0 <= j < i ==> self.edges@[j].id@ != id@,
            decreases self.edges.len() - i,
        {
            if crate::text::str_is(self.edges[i].id.as_str(), id) {
                proof {
                    let s = self.edges();
                    assert(s[i as int].id == id@);
                    let k = choose|k: int| 0 <= k < s.len() && s[k].id == id@;
                    assert(k == i);
                }
                return Some(i);
            }
            i = i + 1;
        }
        proof {
            let s = self.edges();
            assert forall|k: int| 0 <= k < s.len() implies s[k].id != id@ by {
                assert(s[k].id == self.edges@[k].id@);
            }
        }
        None
    }

    /// Stores a copy of `node` under its identifier (replacing a node with the
    /// same identifier). Never fails.
    pub fn create_node(&mut self, node: &Node) -> (r: Result<(), String>)
        ensures
            r is Ok,
            final(self).nodes() == upsert_node(old(self).nodes(), node@),
            final(self).edges() == old(self).edges(),
    {
        proof { use_type_invariant(&*self); }
        let pos = self.find_node(node.id.as_str());
        let mut nodes = clone_nodes(&self.nodes);
        let edges = clone_edges(&self.edges);
        let ghost before = self.nodes();
        match pos {
            Some(i) => {
                nodes.set(i, node.clone());
            },
            None => {
                nodes.push(node.clone());
            },
        }
        proof {
            let after = nodes@.map_values(|n: Node| n@);
            assert(after =~= upsert_node(before, node@));
            assert forall|a: int, b: int| 0 <= a < b < after.len() implies after[a].id != after[b].id by {
                if pos is None {
                    if b == before.len() {
                        assert(after[a] == before[a]);
                    }
                }
            }
            assert(edges@.map_values(|e: Edge| e@) =~= self.edges());
        }
        *self = GraphStorage { nodes, edges };
        Ok(())
    }

    /// Stores a copy of `edge` under its identifier (replacing an edge with the
    /// same identifier). Never fails.
    pub fn create_edge(&mut self, edge: &Edge) -> (r: Result<(), String>)
        ensures
            r is Ok,
            final(self).edges() == upsert_edge(old(self).edges(), edge@),
            final(self).nodes() == old(self).nodes(),
    {
        proof { use_type_invariant(&*self); }
        let pos = self.find_edge(edge.id.as_str());
        let nodes = clone_nodes(&self.nodes);
        let mut edges = clone_edges(&self.edges);
        let ghost before = self.edges();
        match pos {
            Some(i) => {
                edges.set(i, edge.clone());
            },
            None => {
                edges.push(edge.clone());
            },
        }
        proof {
            let after = edges@.map_values(|e: Edge| e@);
            assert(after =~= upsert_edge(before, edge@));
            assert forall|a: int, b: int| 0 <= a < b < after.len() implies after[a].id != after[b].id by {
                if pos is None {
                    if b == before.len() {
                        assert(after[a] == before[a]);
                    }
                }
            }
            assert(nodes@.map_values(|n: Node| n@) =~= self.nodes());
        }
        *self = GraphStorage { nodes, edges };
        Ok(())
    }

    /// A copy of the node with identifier `id`, if stored. Never fails.
    pub fn get_node(&self, id: &str) -> (r: Result<Option<Node>, String>)
        ensures
            node_ids_distinct(self.nodes()),
            r matches Ok(o) && (match node_index(self.nodes(), id@) {
                Some(i) => o matches Some(n) && n@ == self.nodes()[i],
                None => o is None,
            }),
    {
        proof { use_type_invariant(self); }
        match self.find_node(id) {
            Some(i) => {
                let n = self.nodes[i].clone();
                assert(self.nodes()[i as int] == self.nodes@[i as int]@);
                Ok(Some(n))
            },
            None => Ok(None),
        }
    }

    /// Copies of all stored nodes, in storage order. Never fails.
    pub fn get_all_nodes(&self) -> (r: Result<Vec<Node>, String>)
        ensures
            r matches Ok(v) && v@.map_values(|n: Node| n@) == self.nodes(),
    {
        let v = clone_nodes(&self.nodes);
        proof { assert(v@.map_values(|n: Node| n@) =~= self.nodes()); }
        Ok(v)
    }

    /// Copies of all stored edges, in storage order. Never fails.
    pub fn get_all_edges(&self) -> (r: Result<Vec<Edge>, String>)
        ensures
            r matches Ok(v) && v@.map_values(|e: Edge| e@) == self.edges(),
    {
        let v = clone_edges(&self.edges);
        proof { assert(v@.map_values(|e: Edge| e@) =~= self.edges()); }
        Ok(v)
    }
}

fn clone_nodes(v: &Vec<Node>) -> (r: Vec<Node>)
    ensures
        r@.len() == v@.len(),
        forall|i: int| 0 <= i < v@.len() ==> r@[i]@ == v@[i]@,
{
    let mut out: Vec<Node> = Vec::new();
    let mut j: usize = 0;
    while j < v.len()
        invariant
            j <= v@.len(),
            out@.len() == j,
            forall|i: int| 0 <= i < j ==> out@[i]@ == v@[i]@,
        decreases v.len() - j,
    {
        out.push(v[j].clone());
        j = j + 1;
    }
    out
}

fn clone_edges(v: &Vec<Edge>) -> (r: Vec<Edge>)
    ensures
        r@.len() == v@.len(),
        forall|i: int| 0 <= i < v@.len() ==> r@[i]@ == v@[i]@,
{
    let mut out: Vec<Edge> = Vec::new();
    let mut j: usize = 0;
    while j < v.len()
        invariant
            j <= v@.len(),
            out@.len() == j,
            forall|i: int| 0 <= i < j ==> out@[i]@ == v@[i]@,
        decreases v.len() - j,
    {
        out.push(v[j].clone());
        j = j + 1;
    }
    out
}

} // verus!
