//! Aggregate functions: the registry of known aggregates, value ordering,
//! and the batch evaluation of built-in aggregates over a group.
use vstd::prelude::*;
use crate::graph::types::{Value, ValueV, value_eq};
use crate::text::{concat2, concat3, push_str, str_chars, str_is, to_owned_string};

verus! {

/// Running state of a window accumulator.
#[derive(Debug, Clone)]
pub enum AggState {
    /// The running integer total.
    Sum { total: i64 },
    /// The number of non-null values seen.
    Count(i64),
    /// Used by both min and max: the extreme value seen so far.
    MinMax { current: Option<Value> },
    /// The number of numeric values seen.
    Avg { count: u64 },
}

/// Incremental operations for a window-compatible aggregate: which
/// accumulator it runs (see [`WindowOps::init`], [`WindowOps::step`] and
/// [`WindowOps::finalise`]).
#[derive(Debug, Clone, Copy, PartialEq, Eq, Structural)]
pub enum WindowOps {
    Count,
    Sum,
    Min,
    Max,
    Avg,
}

/// Descriptor for one registered aggregate function.
#[derive(Debug)]
pub struct AggregateDesc {
    pub window_compatible: bool,
    pub window_ops: Option<WindowOps>,
}

/// Registry of aggregate function descriptors, keyed by hyphenated name.
pub struct FunctionRegistry {
    aggregates: Vec<(String, AggregateDesc)>,
}

/// The built-in aggregates and whether each can run as a window function.
pub open spec fn builtin_aggregates() -> Seq<RegEntry> {
    seq![
        ("count"@, true, Some(WindowOps::Count)),
        ("sum"@, true, Some(WindowOps::Sum)),
        ("min"@, true, Some(WindowOps::Min)),
        ("max"@, true, Some(WindowOps::Max)),
        ("avg"@, true, Some(WindowOps::Avg)),
        ("count-distinct"@, false, None),
        ("sum-distinct"@, false, None),
    ]
}

/// A registry entry: the name, whether it is window-compatible, and its
/// window accumulator if it has one.
pub type RegEntry = (Seq<char>, bool, Option<WindowOps>);

/// The window accumulator registered under `name` (the first entry of that
/// name): `None` when no entry has the name.
pub open spec fn entry_ops(es: Seq<RegEntry>, name: Seq<char>) -> Option<Option<WindowOps>> {
    if exists|i: int| 0 <= i < es.len() && es[i].0 == name {
        let i = choose|i: int| 0 <= i < es.len() && es[i].0 == name
            && forall|j: int| 0 <= j < i ==> es[j].0 != name;
        Some(es[i].2)
    } else {
        None
    }
}

impl FunctionRegistry {
    /// A registry holds the built-in aggregates: no other can be registered.
    #[verifier::type_invariant]
    pub(crate) open spec fn holds_builtins(self) -> bool {
        self.entries() == builtin_aggregates()
    }

    /// The registered names and window flags, in registration order.
    pub closed spec fn entries(&self) -> Seq<RegEntry> {
        self.aggregates@.map_values(|e: (String, AggregateDesc)| (e.0@, e.1.window_compatible, e.1.window_ops))
    }

    /// The registry of built-in aggregates.
    pub fn with_builtins() -> (r: Self)
        ensures
            r.entries() == builtin_aggregates(),
    {
        let mut v: Vec<(String, AggregateDesc)> = Vec::new();
        v.push((to_owned_string("count"), AggregateDesc { window_compatible: true, window_ops: Some(WindowOps::Count) }));
        v.push((to_owned_string("sum"), AggregateDesc { window_compatible: true, window_ops: Some(WindowOps::Sum) }));
        v.push((to_owned_string("min"), AggregateDesc { window_compatible: true, window_ops: Some(WindowOps::Min) }));
        v.push((to_owned_string("max"), AggregateDesc { window_compatible: true, window_ops: Some(WindowOps::Max) }));
        v.push((to_owned_string("avg"), AggregateDesc { window_compatible: true, window_ops: Some(WindowOps::Avg) }));
        v.push((to_owned_string("count-distinct"), AggregateDesc { window_compatible: false, window_ops: None }));
        v.push((to_owned_string("sum-distinct"), AggregateDesc { window_compatible: false, window_ops: None }));
        assert(v@.map_values(|e: (String, AggregateDesc)| (e.0@, e.1.window_compatible, e.1.window_ops))
            =~= builtin_aggregates());
        FunctionRegistry { aggregates: v }
    }

    /// The descriptor registered under `name`, if any (the first one).
    pub fn get(&self, name: &str) -> (r: Option<&AggregateDesc>)
        ensures
            r is Some <==> exists|i: int| 0 <= i < self.entries().len() && self.entries()[i].0 == name@,
            r matches Some(d) ==> exists|i: int| 0 <= i < self.entries().len()
                && self.entries()[i].0 == name@ && self.entries()[i].1 == d.window_compatible
                && self.entries()[i].2 == d.window_ops
                && forall|j: int| 0 <= j < i ==> self.entries()[j].0 != name@,
    {
        let mut i: usize = 0;
        while i < self.aggregates.len()
            invariant
                i <= self.aggregates@.len(),
                forall|j: int| 0 <= j < i ==> self.entries()[j].0 != name@,
            decreases self.aggregates.len() - i,
        {
            if str_is(self.aggregates[i].0.as_str(), name) {
                assert(self.entries()[i as int].0 == name@);
                return Some(&self.aggregates[i].1);
            }
            i = i + 1;
        }
        None
    }

    /// Whether an aggregate named `name` is registered.
    pub fn is_known(&self, name: &str) -> (r: bool)
        ensures
            r == exists|i: int| 0 <= i < self.entries().len() && self.entries()[i].0 == name@,
    {
        self.get(name).is_some()
    }

    /// Whether the aggregate named `name` is registered and window-compatible.
    pub fn is_window_compatible(&self, name: &str) -> (r: bool)
        ensures
            r == exists|i: int| 0 <= i < self.entries().len() && self.entries()[i].0 == name@
                && self.entries()[i].1 && forall|j: int| 0 <= j < i ==> self.entries()[j].0 != name@,
    {
        match self.get(name) {
            Some(d) => d.window_compatible,
            None => false,
        }
    }
}

/// The model of an [`AggState`].
pub enum AccV {
    Sum(int),
    Count(int),
    Extreme(Option<ValueV>),
    Avg(int),
}

impl View for AggState {
    type V = AccV;

    open spec fn view(&self) -> AccV {
        match self {
            AggState::Sum { total } => AccV::Sum(*total as int),
            AggState::Count(n) => AccV::Count(*n as int),
            AggState::MinMax { current } => AccV::Extreme(
                match current {
                    Some(v) => Some(v@),
                    None => None,
                },
            ),
            AggState::Avg { count } => AccV::Avg(*count as int),
        }
    }
}

/// The largest magnitude up to which a running sum is exact in a 64-bit
/// float: 2^53.
pub open spec fn exact_sum_limit() -> int {
    9007199254740992
}

/// The registry name of a window accumulator.
pub open spec fn ops_name(op: WindowOps) -> Seq<char> {
    match op {
        WindowOps::Count => "count"@,
        WindowOps::Sum => "sum"@,
        WindowOps::Min => "min"@,
        WindowOps::Max => "max"@,
        WindowOps::Avg => "avg"@,
    }
}

/// The message of a running sum that leaves the exact integer range.
pub open spec fn sum_range_msg() -> Seq<char> {
    "sum: value outside the exactly representable integer range"@
}

/// The state an accumulator starts from.
pub open spec fn acc_init(op: WindowOps) -> AccV {
    match op {
        WindowOps::Count => AccV::Count(0),
        WindowOps::Sum => AccV::Sum(0),
        WindowOps::Min => AccV::Extreme(None),
        WindowOps::Max => AccV::Extreme(None),
        WindowOps::Avg => AccV::Avg(0),
    }
}

/// One step of an accumulator over a value: count counts non-null values;
/// sum adds integers (exactly, within [`exact_sum_limit`]); min and max keep
/// the smallest or largest value in value order; avg counts numeric values.
/// A state of another accumulator's kind is left as it is. Floats are an
/// error for sum, min and max.
pub open spec fn acc_step(op: WindowOps, st: AccV, v: ValueV) -> Result<AccV, Seq<char>> {
    let lim = exact_sum_limit();
    match (op, st) {
        (WindowOps::Count, AccV::Count(n)) => if v is Null { Ok(st) } else { Ok(AccV::Count(n + 1)) },
        (WindowOps::Sum, AccV::Sum(t)) => match v {
            ValueV::Integer(i) => if -lim <= i <= lim && -lim <= t + i <= lim {
                Ok(AccV::Sum(t + i))
            } else {
                Err(sum_range_msg())
            },
            ValueV::Float(_) => Err("sum: floating-point values are not supported"@),
            _ => Ok(st),
        },
        (WindowOps::Min, AccV::Extreme(cur)) => match v {
            ValueV::Null => Ok(st),
            ValueV::Float(_) => Err("min: floating-point values are not supported"@),
            _ => match cur {
                None => Ok(AccV::Extreme(Some(v))),
                Some(c) => if spec_value_lt(v, c) { Ok(AccV::Extreme(Some(v))) } else { Ok(st) },
            },
        },
        (WindowOps::Max, AccV::Extreme(cur)) => match v {
            ValueV::Null => Ok(st),
            ValueV::Float(_) => Err("max: floating-point values are not supported"@),
            _ => match cur {
                None => Ok(AccV::Extreme(Some(v))),
                Some(c) => if spec_value_lt(c, v) { Ok(AccV::Extreme(Some(v))) } else { Ok(st) },
            },
        },
        (WindowOps::Avg, AccV::Avg(n)) => match v {
            ValueV::Integer(_) => Ok(AccV::Avg(n + 1)),
            ValueV::Float(_) => Ok(AccV::Avg(n + 1)),
            _ => Ok(st),
        },
        _ => Ok(st),
    }
}

/// Whether a step's counter stays within its integer type.
pub open spec fn acc_step_fits(op: WindowOps, st: AccV, v: ValueV) -> bool {
    match (op, st) {
        (WindowOps::Count, AccV::Count(n)) => v is Null || n < i64::MAX,
        (WindowOps::Avg, AccV::Avg(n)) => n < u64::MAX,
        _ => true,
    }
}

/// The value an accumulator reports: the count, the total, the extreme value
/// (`Null` before any), or for avg `Null` before any numeric value and
/// otherwise an error, as the mean needs floating-point division. A state of
/// another kind reports `Null`.
pub open spec fn acc_final(op: WindowOps, st: AccV) -> Result<ValueV, Seq<char>> {
    match (op, st) {
        (WindowOps::Count, AccV::Count(n)) => Ok(ValueV::Integer(n as i64)),
        (WindowOps::Sum, AccV::Sum(t)) => Ok(ValueV::Integer(t as i64)),
        (WindowOps::Min, AccV::Extreme(c)) => Ok(
            match c {
                Some(x) => x,
                None => ValueV::Null,
            },
        ),
        (WindowOps::Max, AccV::Extreme(c)) => Ok(
            match c {
                Some(x) => x,
                None => ValueV::Null,
            },
        ),
        (WindowOps::Avg, AccV::Avg(n)) => if n == 0 {
            Ok(ValueV::Null)
        } else {
            Err("avg: floating-point values are not supported"@)
        },
        _ => Ok(ValueV::Null),
    }
}

impl WindowOps {
    /// A fresh accumulator state.
    pub fn init(&self) -> (r: AggState)
        ensures
            r@ == acc_init(*self),
    {
        match self {
            WindowOps::Count => AggState::Count(0),
            WindowOps::Sum => AggState::Sum { total: 0 },
            WindowOps::Min => AggState::MinMax { current: None },
            WindowOps::Max => AggState::MinMax { current: None },
            WindowOps::Avg => AggState::Avg { count: 0 },
        }
    }

    /// Feeds one value to the accumulator.
    pub fn step(&self, state: &mut AggState, v: &Value) -> (r: Result<(), String>)
        requires
            acc_step_fits(*self, old(state)@, v@),
        ensures
            match acc_step(*self, old(state)@, v@) {
                Ok(s) => r is Ok && final(state)@ == s,
                Err(m) => r matches Err(x) && x@ == m,
            },
    {
        let lim: i64 = 9007199254740992;
        match (self, &mut *state) {
            (WindowOps::Count, AggState::Count(n)) => {
                if let Value::Null = v {
                } else {
                    *n = *n + 1;
                }
                Ok(())
            },
            (WindowOps::Sum, AggState::Sum { total }) => match v {
                Value::Integer(i) => {
                    let i = *i;
                    let t = *total;
                    if i < -lim || i > lim || t < -2 * lim || t > 2 * lim {
                        Err(to_owned_string("sum: value outside the exactly representable integer range"))
                    } else if t + i < -lim || t + i > lim {
                        Err(to_owned_string("sum: value outside the exactly representable integer range"))
                    } else {
                        *total = t + i;
                        Ok(())
                    }
                },
                Value::Float(_) => Err(to_owned_string("sum: floating-point values are not supported")),
                _ => Ok(()),
            },
            (WindowOps::Min, AggState::MinMax { current }) => match v {
                Value::Null => Ok(()),
                Value::Float(_) => Err(to_owned_string("min: floating-point values are not supported")),
                _ => {
                    let replace = match &*current {
                        None => true,
                        Some(c) => value_lt(v, c),
                    };
                    if replace {
                        *current = Some(v.clone());
                    }
                    Ok(())
                },
            },
            (WindowOps::Max, AggState::MinMax { current }) => match v {
                Value::Null => Ok(()),
                Value::Float(_) => Err(to_owned_string("max: floating-point values are not supported")),
                _ => {
                    let replace = match &*current {
                        None => true,
                        Some(c) => value_lt(c, v),
                    };
                    if replace {
                        *current = Some(v.clone());
                    }
                    Ok(())
                },
            },
            (WindowOps::Avg, AggState::Avg { count }) => {
                match v {
                    Value::Integer(_) => { *count = *count + 1; },
                    Value::Float(_) => { *count = *count + 1; },
                    _ => {},
                }
                Ok(())
            },
            _ => Ok(()),
        }
    }

    /// The value the accumulator reports for the values fed so far.
    pub fn finalise(&self, state: &AggState) -> (r: Result<Value, String>)
        ensures
            match acc_final(*self, state@) {
                Ok(v) => r matches Ok(x) && x@ == v,
                Err(m) => r matches Err(x) && x@ == m,
            },
    {
        match (self, state) {
            (WindowOps::Count, AggState::Count(n)) => Ok(Value::Integer(*n)),
            (WindowOps::Sum, AggState::Sum { total }) => Ok(Value::Integer(*total)),
            (WindowOps::Min, AggState::MinMax { current }) => match current {
                Some(x) => Ok(x.clone()),
                None => Ok(Value::Null),
            },
            (WindowOps::Max, AggState::MinMax { current }) => match current {
                Some(x) => Ok(x.clone()),
                None => Ok(Value::Null),
            },
            (WindowOps::Avg, AggState::Avg { count }) => if *count == 0 {
                Ok(Value::Null)
            } else {
                Err(to_owned_string("avg: floating-point values are not supported"))
            },
            _ => Ok(Value::Null),
        }
    }
}

/// Lexicographic order on character sequences (a proper prefix is smaller).
pub open spec fn seq_lt(a: Seq<char>, b: Seq<char>) -> bool
    decreases a.len(),
{
    if b.len() == 0 {
        false
    } else if a.len() == 0 {
        true
    } else if a[0] != b[0] {
        a[0] < b[0]
    } else {
        seq_lt(a.drop_first(), b.drop_first())
    }
}

/// Whether `a < b` in value order: integers numerically, strings
/// lexicographically; any other pair (including floats, which this library
/// does not order) is not less.
pub open spec fn spec_value_lt(a: ValueV, b: ValueV) -> bool {
    match (a, b) {
        (ValueV::Integer(x), ValueV::Integer(y)) => x < y,
        (ValueV::String(x), ValueV::String(y)) => seq_lt(x, y),
        _ => false,
    }
}

/// Lexicographic comparison of two character slices.
pub fn chars_lt(a: &[char], b: &[char]) -> (r: bool)
    ensures
        r == seq_lt(a@, b@),
{
    let mut i: usize = 0;
    assert(a@.subrange(0, a.len() as int) =~= a@);
    assert(b@.subrange(0, b.len() as int) =~= b@);
    while i < a.len() && i < b.len()
        invariant
            i <= a.len(),
            i <= b.len(),
            a@.subrange(0, i as int) == b@.subrange(0, i as int),
            seq_lt(a@, b@) == seq_lt(a@.subrange(i as int, a.len() as int), b@.subrange(i as int, b.len() as int)),
        decreases a.len() - i,
    {
        if a[i] != b[i] {
            proof {
                let x = a@.subrange(i as int, a.len() as int);
                let y = b@.subrange(i as int, b.len() as int);
                assert(x[0] == a[i as int] && y[0] == b[i as int]);
            }
            return a[i] < b[i];
        }
        proof {
            let x = a@.subrange(i as int, a.len() as int);
            let y = b@.subrange(i as int, b.len() as int);
            assert(x.drop_first() =~= a@.subrange(i + 1, a.len() as int));
            assert(y.drop_first() =~= b@.subrange(i + 1, b.len() as int));
            assert(a@.subrange(0, i + 1) =~= a@.subrange(0, i as int).push(a[i as int]));
            assert(b@.subrange(0, i + 1) =~= b@.subrange(0, i as int).push(b[i as int]));
        }
        i = i + 1;
    }
    i < b.len()
}

/// Returns true if a < b by value ordering (integers numerically, strings
/// lexicographically). Returns false for incomparable types (no panic).
pub fn value_lt(a: &Value, b: &Value) -> (r: bool)
    ensures
        r == spec_value_lt(a@, b@),
{
    match (a, b) {
        (Value::Integer(x), Value::Integer(y)) => *x < *y,
        (Value::String(x), Value::String(y)) => {
            let xs = str_chars(x.as_str());
            let ys = str_chars(y.as_str());
            chars_lt(xs.as_slice(), ys.as_slice())
        },
        _ => false,
    }
}

/// The type name of a value, as used in error messages.
pub open spec fn kind_name(v: ValueV) -> Seq<char> {
    match v {
        ValueV::String(_) => "String"@,
        ValueV::Integer(_) => "Integer"@,
        ValueV::Float(_) => "Float"@,
        ValueV::Boolean(_) => "Boolean"@,
        ValueV::Ref(_) => "Ref"@,
        ValueV::Keyword(_) => "Keyword"@,
        ValueV::Null => "Null"@,
    }
}

/// Human-readable type name for error messages.
pub fn value_type_name(v: &Value) -> (r: &'static str)
    ensures
        r@ == kind_name(v@),
{
    match v {
        Value::String(_) => "String",
        Value::Integer(_) => "Integer",
        Value::Float(_) => "Float",
        Value::Boolean(_) => "Boolean",
        Value::Ref(_) => "Ref",
        Value::Keyword(_) => "Keyword",
        Value::Null => "Null",
    }
}

/// The values of `s` with later duplicates removed (first occurrences kept).
pub open spec fn dedup(s: Seq<ValueV>) -> Seq<ValueV>
    decreases s.len(),
{
    if s.len() == 0 {
        Seq::empty()
    } else if dedup(s.drop_last()).contains(s.last()) {
        dedup(s.drop_last())
    } else {
        dedup(s.drop_last()).push(s.last())
    }
}

/// The sum of a sequence of values taken as integers (others count 0).
pub open spec fn int_sum(s: Seq<ValueV>) -> int
    decreases s.len(),
{
    if s.len() == 0 {
        0
    } else {
        int_sum(s.drop_last()) + match s.last() {
            ValueV::Integer(i) => i as int,
            _ => 0,
        }
    }
}

/// Whether every running total of the integer sum stays within `i64`.
pub open spec fn sums_fit(s: Seq<ValueV>) -> bool {
    forall|k: int| 0 <= k <= s.len() ==> i64::MIN <= #[trigger] int_sum(s.subrange(0, k)) <= i64::MAX
}

/// The index of the first value that is neither Integer nor Float, if any.
pub open spec fn first_non_numeric(s: Seq<ValueV>) -> Option<int> {
    if exists|i: int| 0 <= i < s.len() && !(s[i] is Integer || s[i] is Float) {
        Some(choose|i: int| 0 <= i < s.len() && !(s[i] is Integer || s[i] is Float)
            && forall|j: int| 0 <= j < i ==> (s[j] is Integer || s[j] is Float))
    } else {
        None
    }
}

/// The message of the error for a non-numeric value in a sum.
pub open spec fn sum_type_error(v: ValueV) -> Seq<char> {
    "sum: expected Integer, Float, or Null, got "@ + kind_name(v)
}

/// The extreme value (min or max) of a non-empty sequence of integers or of
/// strings; the first of equal values is kept.
pub open spec fn extreme(s: Seq<ValueV>, is_min: bool) -> ValueV
    decreases s.len(),
{
    if s.len() <= 1 {
        s[0]
    } else {
        let acc = extreme(s.drop_last(), is_min);
        let v = s.last();
        if is_min {
            if spec_value_lt(v, acc) { v } else { acc }
        } else {
            if spec_value_lt(acc, v) { v } else { acc }
        }
    }
}

/// The outcome of a built-in aggregate over the non-null values of a group.
///
/// `count` and `count-distinct` count (distinct) values. `sum` and
/// `sum-distinct` add integers (0 for an empty group); a value that is not a
/// number is an error; a float among numbers is outside this library's
/// arithmetic and an error. `min`/`max` need a non-empty group of one type:
/// integers or strings (floats and other types are errors). `avg` is
/// `Null` on an empty group and otherwise needs floating-point division,
/// which this library does not do: an error. Any other name is an error.
pub open spec fn spec_aggregate(name: Seq<char>, vals: Seq<ValueV>) -> Result<ValueV, Seq<char>> {
    if name == "count"@ {
        Ok(ValueV::Integer(vals.len() as i64))
    } else if name == "count-distinct"@ {
        Ok(ValueV::Integer(dedup(vals).len() as i64))
    } else if name == "sum"@ {
        spec_sum(vals)
    } else if name == "sum-distinct"@ {
        spec_sum(dedup(vals))
    } else if name == "min"@ || name == "max"@ {
        spec_extreme(name, vals)
    } else if name == "avg"@ {
        if vals.len() == 0 {
            Ok(ValueV::Null)
        } else {
            Err("avg: floating-point values are not supported"@)
        }
    } else {
        Err("unknown aggregate function: '"@ + name + "'"@)
    }
}

/// The outcome of summing a group (see [`spec_aggregate`]).
pub open spec fn spec_sum(d: Seq<ValueV>) -> Result<ValueV, Seq<char>> {
    if d.len() == 0 {
        Ok(ValueV::Integer(0))
    } else if first_non_numeric(d) is Some {
        Err(sum_type_error(d[first_non_numeric(d)->0]))
    } else if exists|i: int| 0 <= i < d.len() && d[i] is Float {
        Err("sum: floating-point values are not supported"@)
    } else {
        Ok(ValueV::Integer(int_sum(d) as i64))
    }
}

/// The index of the first value of a different variant than the first value.
pub open spec fn first_other_kind(vals: Seq<ValueV>) -> Option<int> {
    if exists|i: int| 0 <= i < vals.len() && !same_kind(vals[i], vals[0]) {
        Some(choose|i: int| 0 <= i < vals.len() && !same_kind(vals[i], vals[0])
            && forall|j: int| 0 <= j < i ==> same_kind(vals[j], vals[0]))
    } else {
        None
    }
}

/// The outcome of `min`/`max` over a group (see [`spec_aggregate`]).
pub open spec fn spec_extreme(name: Seq<char>, vals: Seq<ValueV>) -> Result<ValueV, Seq<char>> {
    if vals.len() == 0 {
        Err("min/max: no non-null values in group"@)
    } else if first_other_kind(vals) is Some {
        Err(name + ": cannot compare "@ + kind_name(vals[0]) + " and "@
            + kind_name(vals[first_other_kind(vals)->0]) + " values"@)
    } else if vals[0] is Integer || vals[0] is String {
        Ok(extreme(vals, name == "min"@))
    } else if vals[0] is Float {
        Err(name + ": floating-point values are not supported"@)
    } else {
        Err(name + ": expected Integer, Float, String, or Null, got "@ + kind_name(vals[0]))
    }
}

/// Whether two values have the same variant.
pub open spec fn same_kind(a: ValueV, b: ValueV) -> bool {
    match (a, b) {
        (ValueV::String(_), ValueV::String(_)) => true,
        (ValueV::Integer(_), ValueV::Integer(_)) => true,
        (ValueV::Float(_), ValueV::Float(_)) => true,
        (ValueV::Boolean(_), ValueV::Boolean(_)) => true,
        (ValueV::Ref(_), ValueV::Ref(_)) => true,
        (ValueV::Keyword(_), ValueV::Keyword(_)) => true,
        (ValueV::Null, ValueV::Null) => true,
        _ => false,
    }
}

fn same_kind_exec(a: &Value, b: &Value) -> (r: bool)
    ensures
        r == same_kind(a@, b@),
{
    match (a, b) {
        (Value::String(_), Value::String(_)) => true,
        (Value::Integer(_), Value::Integer(_)) => true,
        (Value::Float(_), Value::Float(_)) => true,
        (Value::Boolean(_), Value::Boolean(_)) => true,
        (Value::Ref(_), Value::Ref(_)) => true,
        (Value::Keyword(_), Value::Keyword(_)) => true,
        (Value::Null, Value::Null) => true,
        _ => false,
    }
}

/// The models of a sequence of value references.
pub open spec fn refs_view(s: Seq<&Value>) -> Seq<ValueV> {
    s.map_values(|v: &Value| v@)
}

fn dedup_refs<'a>(values: &[&'a Value]) -> (r: Vec<&'a Value>)
    ensures
        refs_view(r@) == dedup(refs_view(values@)),
{
    let mut seen: Vec<&Value> = Vec::new();
    let mut i: usize = 0;
    while i < values.len()
        invariant
            i <= values.len(),
            refs_view(seen@) == dedup(refs_view(values@).subrange(0, i as int)),
        decreases values.len() - i,
    {
        let v = values[i];
        let mut found = false;
        let mut j: usize = 0;
        while j < seen.len()
            invariant
                j <= seen.len(),
                found == exists|q: int| 0 <= q < j && seen@[q]@ == v@,
            decreases seen.len() - j,
        {
            if value_eq(seen[j], v) {
                found = true;
            }
            j = j + 1;
        }
        proof {
            let pre = refs_view(values@).subrange(0, i + 1);
            assert(pre.drop_last() =~= refs_view(values@).subrange(0, i as int));
            assert(pre.last() == v@);
            if found {
                let q = choose|q: int| 0 <= q < seen.len() && seen@[q]@ == v@;
                assert(refs_view(seen@)[q] == v@);
            } else {
                assert(!refs_view(seen@).contains(v@)) by {
                    if refs_view(seen@).contains(v@) {
                        let q = choose|q: int| 0 <= q < refs_view(seen@).len() && refs_view(seen@)[q] == v@;
                        assert(seen@[q]@ == v@);
                    }
                }
            }
        }
        if !found {
            let ghost before = seen@;
            seen.push(v);
            assert(refs_view(seen@) =~= refs_view(before).push(v@));
        }
        i = i + 1;
    }
    assert(refs_view(values@).subrange(0, values.len() as int) =~= refs_view(values@));
    seen
}

fn sum_values(deduped: &Vec<&Value>) -> (r: Result<Value, String>)
    requires
        sums_fit(refs_view(deduped@)),
    ensures
        match r {
            Ok(v) => spec_sum(refs_view(deduped@)) == Ok::<ValueV, Seq<char>>(v@),
            Err(m) => spec_sum(refs_view(deduped@)) == Err::<ValueV, Seq<char>>(m@),
        },
{
    let ghost d = refs_view(deduped@);
    if deduped.len() == 0 {
        return Ok(Value::Integer(0));
    }
    let mut has_float = false;
    let mut i: usize = 0;
    while i < deduped.len()
        invariant
            i <= deduped.len(),
            d == refs_view(deduped@),
            forall|j: int| 0 <= j < i ==> (d[j] is Integer || d[j] is Float),
            has_float == exists|j: int| 0 <= j < i && d[j] is Float,
        decreases deduped.len() - i,
    {
        match deduped[i] {
            Value::Integer(_) => {},
            Value::Float(_) => {
                assert(d[i as int] is Float);
                has_float = true;
            },
            other => {
                proof {
                    assert(!(d[i as int] is Integer || d[i as int] is Float));
                    let w = first_non_numeric(d)->0;
                    assert(w == i as int) by {
                        if w < i as int {
                        } else if w > i as int {
                        }
                    }
                }
                let msg = concat2("sum: expected Integer, Float, or Null, got ", value_type_name(other));
                return Err(msg);
            },
        }
        i = i + 1;
    }
    assert(first_non_numeric(d) is None);
    if has_float {
        return Err(to_owned_string("sum: floating-point values are not supported"));
    }
    let mut sum: i64 = 0;
    let mut k: usize = 0;
    while k < deduped.len()
        invariant
            k <= deduped.len(),
            d == refs_view(deduped@),
            sums_fit(d),
            forall|j: int| 0 <= j < d.len() ==> d[j] is Integer,
            sum as int == int_sum(d.subrange(0, k as int)),
        decreases deduped.len() - k,
    {
        proof {
            assert(d.subrange(0, k + 1).drop_last() =~= d.subrange(0, k as int));
            assert(i64::MIN <= int_sum(d.subrange(0, k + 1)) <= i64::MAX);
            assert(d[k as int] is Integer);
        }
        if let Value::Integer(x) = deduped[k] {
            sum = sum + *x;
        }
        k = k + 1;
    }
    assert(d.subrange(0, d.len() as int) =~= d);
    Ok(Value::Integer(sum))
}

fn extreme_value(name: &str, values: &[&Value]) -> (r: Result<Value, String>)
    requires
        name@ == "min"@ || name@ == "max"@,
    ensures
        match r {
            Ok(v) => spec_extreme(name@, refs_view(values@)) == Ok::<ValueV, Seq<char>>(v@),
            Err(m) => spec_extreme(name@, refs_view(values@)) == Err::<ValueV, Seq<char>>(m@),
        },
{
    let ghost vals = refs_view(values@);
    if values.len() == 0 {
        return Err(to_owned_string("min/max: no non-null values in group"));
    }
    let first = values[0];
    let mut i: usize = 1;
    while i < values.len()
        invariant
            1 <= i <= values.len(),
            vals == refs_view(values@),
            first@ == vals[0],
            forall|j: int| 0 <= j < i ==> same_kind(vals[j], vals[0]),
        decreases values.len() - i,
    {
        if !same_kind_exec(values[i], first) {
            proof {
                assert(!same_kind(vals[i as int], vals[0]));
                let w = first_other_kind(vals)->0;
                assert(w == i as int) by {
                    if w < i as int {
                    } else if w > i as int {
                        assert(same_kind(vals[i as int], vals[0]));
                    }
                }
            }
            let mut msg = concat3(name, ": cannot compare ", value_type_name(first));
            push_str(&mut msg, " and ");
            push_str(&mut msg, value_type_name(values[i]));
            push_str(&mut msg, " values");
            return Err(msg);
        }
        i = i + 1;
    }
    assert(first_other_kind(vals) is None);
    let is_min = str_is(name, "min");
    match first {
        Value::Integer(_) | Value::String(_) => {},
        Value::Float(_) => {
            return Err(concat2(name, ": floating-point values are not supported"));
        },
        _ => {
            return Err(concat3(name, ": expected Integer, Float, String, or Null, got ", value_type_name(first)));
        },
    }
    let mut acc: &Value = first;
    let mut k: usize = 1;
    while k < values.len()
        invariant
            1 <= k <= values.len(),
            vals == refs_view(values@),
            acc@ == extreme(vals.subrange(0, k as int), is_min),
        decreases values.len() - k,
    {
        proof {
            assert(vals.subrange(0, k + 1).drop_last() =~= vals.subrange(0, k as int));
        }
        let v = values[k];
        if is_min {
            if value_lt(v, acc) {
                acc = v;
            }
        } else {
            if value_lt(acc, v) {
                acc = v;
            }
        }
        k = k + 1;
    }
    assert(vals.subrange(0, vals.len() as int) =~= vals);
    Ok(acc.clone())
}

fn copy_refs<'a>(values: &[&'a Value]) -> (r: Vec<&'a Value>)
    ensures
        r@ == values@,
{
    let mut c: Vec<&Value> = Vec::new();
    let mut i: usize = 0;
    while i < values.len()
        invariant
            i <= values.len(),
            c@ == values@.subrange(0, i as int),
        decreases values.len() - i,
    {
        c.push(values[i]);
        i = i + 1;
        assert(c@ =~= values@.subrange(0, i as int));
    }
    assert(c@ =~= values@);
    c
}

/// Apply a built-in aggregate function to a slice of non-null values (batch mode).
pub fn apply_builtin_aggregate(name: &str, values: &[&Value]) -> (r: Result<Value, String>)
    requires
        name@ == "sum"@ ==> sums_fit(refs_view(values@)),
        name@ == "sum-distinct"@ ==> sums_fit(dedup(refs_view(values@))),
    ensures
        match r {
            Ok(v) => spec_aggregate(name@, refs_view(values@)) == Ok::<ValueV, Seq<char>>(v@),
            Err(m) => spec_aggregate(name@, refs_view(values@)) == Err::<ValueV, Seq<char>>(m@),
        },
{
    if str_is(name, "count") {
        proof { assert(refs_view(values@).len() == values@.len()); }
        return Ok(Value::Integer(values.len() as i64));
    }
    if str_is(name, "count-distinct") {
        let seen = dedup_refs(values);
        proof { assert(refs_view(seen@).len() == seen@.len()); }
        return Ok(Value::Integer(seen.len() as i64));
    }
    if str_is(name, "sum") {
        let c = copy_refs(values);
        return sum_values(&c);
    }
    if str_is(name, "sum-distinct") {
        let c = dedup_refs(values);
        return sum_values(&c);
    }
    if str_is(name, "min") || str_is(name, "max") {
        return extreme_value(name, values);
    }
    if str_is(name, "avg") {
        if values.len() == 0 {
            return Ok(Value::Null);
        }
        return Err(to_owned_string("avg: floating-point values are not supported"));
    }
    Err(concat3("unknown aggregate function: '", name, "'"))
}

/// Whether the batch evaluation of an aggregate overflows (and panics): a
/// sum whose running integer total leaves `i64`.
pub open spec fn aggregate_overflows(name: Seq<char>, vals: Seq<ValueV>) -> bool {
    (name == "sum"@ && !sums_fit(vals)) || (name == "sum-distinct"@ && !sums_fit(dedup(vals)))
}

fn sums_fit_exec(values: &[&Value]) -> (r: bool)
    ensures
        r == sums_fit(refs_view(values@)),
{
    let ghost s = refs_view(values@);
    let mut acc: i128 = 0;
    let mut k: usize = 0;
    assert(s.subrange(0, 0) =~= Seq::<ValueV>::empty());
    while k < values.len()
        invariant
            k <= values.len(),
            s == refs_view(values@),
            acc == int_sum(s.subrange(0, k as int)),
            forall|j: int| 0 <= j <= k ==> i64::MIN <= #[trigger] int_sum(s.subrange(0, j)) <= i64::MAX,
        decreases values.len() - k,
    {
        assert(s.subrange(0, k + 1).drop_last() =~= s.subrange(0, k as int));
        assert(s.subrange(0, k + 1).last() == values@[k as int]@);
        match values[k] {
            Value::Integer(i) => {
                acc = acc + (*i as i128);
            },
            _ => {},
        }
        assert(acc == int_sum(s.subrange(0, k + 1)));
        if acc < i64::MIN as i128 || acc > i64::MAX as i128 {
            assert(!(i64::MIN <= int_sum(s.subrange(0, k + 1)) <= i64::MAX));
            return false;
        }
        k = k + 1;
    }
    assert(s.subrange(0, s.len() as int) =~= s);
    true
}

/// As [`apply_builtin_aggregate`], with `None` where the running integer sum
/// leaves `i64`.
pub fn apply_builtin_aggregate_checked(name: &str, values: &[&Value]) -> (r: Option<Result<Value, String>>)
    ensures
        aggregate_overflows(name@, refs_view(values@)) <==> r is None,
        match r {
            Some(Ok(v)) => spec_aggregate(name@, refs_view(values@)) == Ok::<ValueV, Seq<char>>(v@),
            Some(Err(m)) => spec_aggregate(name@, refs_view(values@)) == Err::<ValueV, Seq<char>>(m@),
            None => true,
        },
{
    proof {
        reveal_strlit("sum");
        reveal_strlit("sum-distinct");
    }
    if str_is(name, "sum") {
        if !sums_fit_exec(values) {
            return None;
        }
        assert(name@.len() == 3);
        assert("sum-distinct"@.len() == 12);
    } else if str_is(name, "sum-distinct") {
        let d = dedup_refs(values);
        let ds = d.as_slice();
        assert(ds@ == d@);
        if !sums_fit_exec(ds) {
            return None;
        }
        assert(sums_fit(dedup(refs_view(values@))));
    }
    Some(apply_builtin_aggregate(name, values))
}

} // verus!
