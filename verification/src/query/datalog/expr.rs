//! Evaluation of expression clauses: truthiness, binary and unary operators,
//! expression trees over a binding, and the filter/bind pass over rows.
use vstd::prelude::*;
use crate::graph::types::{Value, ValueV, value_eq};
use crate::query::datalog::bindings::{Bindings, bindings_view};
use crate::query::datalog::types::{BinOp, ClauseV, Expr, UnaryOp, WhereClause, clause_seq_view};
use crate::text::{contains_chars, contains_seq, ends_with_chars, is_prefix, is_suffix, occurs_at, starts_with_chars, str_chars};

verus! {

/// Whether a decimal float literal denotes a non-zero number (some digit 1–9).
pub open spec fn float_text_nonzero(t: Seq<char>) -> bool {
    exists|i: int| 0 <= i < t.len() && '1' <= #[trigger] t[i] <= '9'
}

/// Truthiness: Boolean(true), non-zero Integer, non-zero Float; everything
/// else is falsy.
pub open spec fn truthy(v: ValueV) -> bool {
    match v {
        ValueV::Boolean(b) => b,
        ValueV::Integer(i) => i != 0,
        ValueV::Float(t) => float_text_nonzero(t),
        _ => false,
    }
}

/// Returns true for Boolean(true), non-zero Integer, non-zero Float.
/// All other Value variants (String, Keyword, Ref, Null, zero) → false.
pub fn is_truthy(v: &Value) -> (r: bool)
    ensures
        r == truthy(v@),
{
    match v {
        Value::Boolean(b) => *b,
        Value::Integer(i) => *i != 0,
        Value::Float(t) => {
            let cs = str_chars(t.as_str());
            let mut i: usize = 0;
            while i < cs.len()
                invariant
                    cs@ == t@,
                    v@ == ValueV::Float(t@),
                    i <= cs.len(),
                    forall|j: int| 0 <= j < i ==> !('1' <= #[trigger] cs@[j] <= '9'),
                decreases cs.len() - i,
            {
                if '1' <= cs[i] && cs[i] <= '9' {
                    assert('1' <= t@[i as int] <= '9');
                    return true;
                }
                i = i + 1;
            }
            false
        },
        _ => false,
    }
}

/// The outcome of evaluating an expression: a value, an evaluation error
/// (unbound variable, type mismatch, division by zero, unsupported operand),
/// or an integer overflow (`i64::MIN / -1`), on which evaluation panics.
pub enum EvalV {
    Val(ValueV),
    Error,
    Overflow,
}

/// Why an evaluation produced no value.
#[derive(Debug, Clone, Copy, PartialEq, Eq, Structural)]
pub enum EvalFail {
    /// Unbound variable, type mismatch, division by zero or unsupported operand.
    Error,
    /// `i64::MIN / -1`.
    Overflow,
}

/// The model of an evaluation result.
pub open spec fn outcome(r: Result<Value, EvalFail>) -> EvalV {
    match r {
        Ok(v) => EvalV::Val(v@),
        Err(EvalFail::Error) => EvalV::Error,
        Err(EvalFail::Overflow) => EvalV::Overflow,
    }
}

/// Whether a binary operation on these operands overflows (and panics).
pub open spec fn div_overflows(op: BinOp, l: ValueV, r: ValueV) -> bool {
    op == BinOp::Div && l == ValueV::Integer(i64::MIN) && r == ValueV::Integer(-1i64)
}

/// The truncating quotient of two integers (rounds toward zero).
pub open spec fn trunc_div(x: int, d: int) -> int {
    if x == 0 {
        0
    } else if x > 0 && d > 0 {
        x / d
    } else if x < 0 && d < 0 {
        (x * -1) / (d * -1)
    } else if x < 0 {
        ((x * -1) / d) * -1
    } else {
        (x / (d * -1)) * -1
    }
}

proof fn lemma_div_bounds(n: int, m: int)
    requires
        n >= 0,
        m >= 1,
    ensures
        0 <= n / m <= n,
        m >= 2 ==> n / m <= n / 2,
{
    assert(0 <= n / m <= n) by (nonlinear_arith)
        requires n >= 0, m >= 1;
    if m >= 2 {
        assert(n / m <= n / 2) by (nonlinear_arith)
            requires n >= 0, m >= 2;
    }
}

proof fn lemma_trunc_div_in_range(x: int, d: int)
    requires
        i64::MIN <= x <= i64::MAX,
        i64::MIN <= d <= i64::MAX,
        d != 0,
        !(x == i64::MIN && d == -1),
    ensures
        i64::MIN <= trunc_div(x, d) <= i64::MAX,
{
    if x > 0 && d > 0 {
        lemma_div_bounds(x, d);
    } else if x < 0 && d < 0 {
        lemma_div_bounds(x * -1, d * -1);
    } else if x < 0 && d > 0 {
        lemma_div_bounds(x * -1, d);
    } else if x > 0 && d < 0 {
        lemma_div_bounds(x, d * -1);
    }
}

/// The result of a binary operator on two values.
///
/// Equality is structural on all values. Ordering and arithmetic work on
/// integers (arithmetic wraps); an operand that is a float is outside this
/// library's arithmetic and yields an error, as does any other type mismatch,
/// division by zero, and the regular-expression `Matches` operator. String
/// predicates need two strings.
pub open spec fn spec_binop(op: BinOp, l: ValueV, r: ValueV) -> EvalV {
    match op {
        BinOp::Eq => EvalV::Val(ValueV::Boolean(l == r)),
        BinOp::Neq => EvalV::Val(ValueV::Boolean(l != r)),
        BinOp::Lt | BinOp::Gt | BinOp::Lte | BinOp::Gte => match (l, r) {
            (ValueV::Integer(a), ValueV::Integer(b)) => EvalV::Val(ValueV::Boolean(
                match op {
                    BinOp::Lt => a < b,
                    BinOp::Gt => a > b,
                    BinOp::Lte => a <= b,
                    _ => a >= b,
                },
            )),
            _ => EvalV::Error,
        },
        BinOp::Add | BinOp::Sub | BinOp::Mul | BinOp::Div => match (l, r) {
            (ValueV::Integer(a), ValueV::Integer(b)) => match op {
                BinOp::Add => EvalV::Val(ValueV::Integer(a.wrapping_add(b))),
                BinOp::Sub => EvalV::Val(ValueV::Integer(a.wrapping_sub(b))),
                BinOp::Mul => EvalV::Val(ValueV::Integer(a.wrapping_mul(b))),
                _ => if b == 0 {
                    EvalV::Error
                } else if a == i64::MIN && b == -1 {
                    EvalV::Overflow
                } else {
                    EvalV::Val(ValueV::Integer(trunc_div(a as int, b as int) as i64))
                },
            },
            _ => EvalV::Error,
        },
        BinOp::StartsWith => match (l, r) {
            (ValueV::String(s), ValueV::String(p)) => EvalV::Val(ValueV::Boolean(is_prefix(p, s))),
            _ => EvalV::Error,
        },
        BinOp::EndsWith => match (l, r) {
            (ValueV::String(s), ValueV::String(p)) => EvalV::Val(ValueV::Boolean(is_suffix(p, s))),
            _ => EvalV::Error,
        },
        BinOp::Contains => match (l, r) {
            (ValueV::String(s), ValueV::String(p)) => EvalV::Val(ValueV::Boolean(contains_seq(s, p))),
            _ => EvalV::Error,
        },
        BinOp::Matches => EvalV::Error,
    }
}

/// The result of a unary type predicate.
pub open spec fn spec_unop(op: UnaryOp, v: ValueV) -> bool {
    match op {
        UnaryOp::StringQ => v is String,
        UnaryOp::IntegerQ => v is Integer,
        UnaryOp::FloatQ => v is Float,
        UnaryOp::BooleanQ => v is Boolean,
        UnaryOp::NilQ => v is Null,
    }
}

/// The result of evaluating an expression against a binding: left operand
/// first, then right; the first failure is the result.
pub open spec fn spec_eval(e: Expr, b: Map<Seq<char>, ValueV>) -> EvalV
    decreases e,
{
    match e {
        Expr::Var(v) => if b.contains_key(v@) { EvalV::Val(b[v@]) } else { EvalV::Error },
        Expr::Lit(v) => EvalV::Val(v@),
        Expr::UnaryOp(op, a) => match spec_eval(*a, b) {
            EvalV::Val(v) => EvalV::Val(ValueV::Boolean(spec_unop(op, v))),
            EvalV::Error => EvalV::Error,
            EvalV::Overflow => EvalV::Overflow,
        },
        Expr::BinOp(op, l, r) => match spec_eval(*l, b) {
            EvalV::Val(lv) => match spec_eval(*r, b) {
                EvalV::Val(rv) => spec_binop(op, lv, rv),
                EvalV::Error => EvalV::Error,
                EvalV::Overflow => EvalV::Overflow,
            },
            EvalV::Error => EvalV::Error,
            EvalV::Overflow => EvalV::Overflow,
        },
    }
}

fn int_div(a: i64, b: i64) -> (r: i64)
    requires
        b != 0,
        !(a == i64::MIN && b == -1),
    ensures
        r as int == trunc_div(a as int, b as int),
{
    proof { lemma_trunc_div_in_range(a as int, b as int); }
    let q = a.checked_div(b);
    match q {
        Some(v) => v,
        None => 0,
    }
}

/// Evaluates a binary operator, reporting an overflow instead of panicking.
pub fn eval_binop_checked(op: &BinOp, l: Value, r: Value) -> (res: Result<Value, EvalFail>)
    ensures
        outcome(res) == spec_binop(*op, l@, r@),
{
    match op {
        BinOp::Eq => return Ok(Value::Boolean(value_eq(&l, &r))),
        BinOp::Neq => return Ok(Value::Boolean(!value_eq(&l, &r))),
        _ => {},
    }
    match op {
        BinOp::Lt | BinOp::Gt | BinOp::Lte | BinOp::Gte => match (&l, &r) {
            (Value::Integer(a), Value::Integer(b)) => Ok(Value::Boolean(
                match op {
                    BinOp::Lt => *a < *b,
                    BinOp::Gt => *a > *b,
                    BinOp::Lte => *a <= *b,
                    _ => *a >= *b,
                },
            )),
            _ => Err(EvalFail::Error),
        },
        BinOp::Add | BinOp::Sub | BinOp::Mul | BinOp::Div => match (&l, &r) {
            (Value::Integer(a), Value::Integer(b)) => match op {
                BinOp::Add => Ok(Value::Integer(a.wrapping_add(*b))),
                BinOp::Sub => Ok(Value::Integer(a.wrapping_sub(*b))),
                BinOp::Mul => Ok(Value::Integer(a.wrapping_mul(*b))),
                _ => {
                    if *b == 0 {
                        Err(EvalFail::Error)
                    } else if *a == i64::MIN && *b == -1 {
                        Err(EvalFail::Overflow)
                    } else {
                        Ok(Value::Integer(int_div(*a, *b)))
                    }
                },
            },
            _ => Err(EvalFail::Error),
        },
        BinOp::StartsWith => match (&l, &r) {
            (Value::String(s), Value::String(p)) => {
                let sc = str_chars(s.as_str());
                let pc = str_chars(p.as_str());
                Ok(Value::Boolean(starts_with_chars(sc.as_slice(), pc.as_slice())))
            },
            _ => Err(EvalFail::Error),
        },
        BinOp::EndsWith => match (&l, &r) {
            (Value::String(s), Value::String(p)) => {
                let sc = str_chars(s.as_str());
                let pc = str_chars(p.as_str());
                Ok(Value::Boolean(ends_with_chars(sc.as_slice(), pc.as_slice())))
            },
            _ => Err(EvalFail::Error),
        },
        BinOp::Contains => match (&l, &r) {
            (Value::String(s), Value::String(p)) => {
                let sc = str_chars(s.as_str());
                let pc = str_chars(p.as_str());
                Ok(Value::Boolean(contains_chars(sc.as_slice(), pc.as_slice())))
            },
            _ => Err(EvalFail::Error),
        },
        _ => Err(EvalFail::Error),
    }
}

/// Evaluates a binary operator on two values.
///
/// `Err(())` on type mismatch, division by zero, a float operand in ordering
/// or arithmetic, and for `Matches`.
pub fn eval_binop(op: &BinOp, l: Value, r: Value) -> (res: Result<Value, ()>)
    requires
        !div_overflows(*op, l@, r@),
    ensures
        spec_binop(*op, l@, r@) matches EvalV::Val(v) ==> res matches Ok(x) && x@ == v,
        spec_binop(*op, l@, r@) is Error ==> res is Err,
{
    match eval_binop_checked(op, l, r) {
        Ok(v) => Ok(v),
        Err(_) => Err(()),
    }
}

/// Evaluates an expression against a binding, reporting overflow instead of
/// panicking.
pub fn eval_expr_checked(expr: &Expr, binding: &Bindings) -> (res: Result<Value, EvalFail>)
    ensures
        outcome(res) == spec_eval(*expr, binding@),
    decreases expr,
{
    match expr {
        Expr::Var(v) => match binding.get(v.as_str()) {
            Some(x) => Ok(x.clone()),
            None => Err(EvalFail::Error),
        },
        Expr::Lit(val) => Ok(val.clone()),
        Expr::UnaryOp(op, arg) => {
            let v = eval_expr_checked(arg, binding)?;
            Ok(Value::Boolean(
                match op {
                    UnaryOp::StringQ => matches!(v, Value::String(_)),
                    UnaryOp::IntegerQ => matches!(v, Value::Integer(_)),
                    UnaryOp::FloatQ => matches!(v, Value::Float(_)),
                    UnaryOp::BooleanQ => matches!(v, Value::Boolean(_)),
                    UnaryOp::NilQ => matches!(v, Value::Null),
                },
            ))
        },
        Expr::BinOp(op, lhs, rhs) => {
            let l = eval_expr_checked(lhs, binding)?;
            let r = eval_expr_checked(rhs, binding)?;
            eval_binop_checked(op, l, r)
        },
    }
}

/// Evaluate an Expr against a binding map.
///
/// Returns `Err(())` on: unbound variable, type mismatch, division by zero.
pub fn eval_expr(expr: &Expr, binding: &Bindings) -> (res: Result<Value, ()>)
    requires
        !(spec_eval(*expr, binding@) is Overflow),
    ensures
        spec_eval(*expr, binding@) matches EvalV::Val(v) ==> res matches Ok(x) && x@ == v,
        spec_eval(*expr, binding@) is Error ==> res is Err,
{
    match eval_expr_checked(expr, binding) {
        Ok(v) => Ok(v),
        Err(_) => Err(()),
    }
}

/// What one expression clause makes of one row: the row kept (filter form,
/// truthy result), the row extended (binding form), dropped (`Err(false)`),
/// or an overflow (`Err(true)`).
pub open spec fn expr_row(
    e: Expr,
    out: Option<Seq<char>>,
    b: Map<Seq<char>, ValueV>,
) -> Result<Option<Map<Seq<char>, ValueV>>, ()> {
    match spec_eval(e, b) {
        EvalV::Val(v) => match out {
            None => if truthy(v) { Ok(Some(b)) } else { Ok(None) },
            Some(var) => Ok(Some(b.insert(var, v))),
        },
        EvalV::Error => Ok(None),
        EvalV::Overflow => Err(()),
    }
}

/// One expression clause applied to every row, in order; `None` if some row
/// overflows.
pub open spec fn expr_rows(
    e: Expr,
    out: Option<Seq<char>>,
    bs: Seq<Map<Seq<char>, ValueV>>,
) -> Option<Seq<Map<Seq<char>, ValueV>>>
    decreases bs.len(),
{
    if bs.len() == 0 {
        Some(Seq::empty())
    } else {
        match expr_rows(e, out, bs.drop_last()) {
            None => None,
            Some(prev) => match expr_row(e, out, bs.last()) {
                Err(_) => None,
                Ok(None) => Some(prev),
                Ok(Some(b)) => Some(prev.push(b)),
            },
        }
    }
}

/// Every expression clause of `cs`, in order, applied to the rows; other
/// clauses are skipped. `None` if some evaluation overflows.
pub open spec fn expr_clauses_rows(
    bs: Seq<Map<Seq<char>, ValueV>>,
    cs: Seq<ClauseV>,
) -> Option<Seq<Map<Seq<char>, ValueV>>>
    decreases cs.len(),
{
    if cs.len() == 0 {
        Some(bs)
    } else {
        match expr_clauses_rows(bs, cs.drop_last()) {
            None => None,
            Some(prev) => match cs.last() {
                ClauseV::Expr { expr, binding } => expr_rows(expr, binding, prev),
                _ => Some(prev),
            },
        }
    }
}

/// The name an optional output variable gives.
pub open spec fn opt_name(o: Option<String>) -> Option<Seq<char>> {
    match o {
        Some(s) => Some(s@),
        None => None,
    }
}

fn apply_one_expr(
    bindings: Vec<Bindings>,
    expr: &Expr,
    out: &Option<String>,
) -> (r: Option<Vec<Bindings>>)
    ensures
        match r {
            Some(v) => expr_rows(*expr, opt_name(*out), bindings_view(bindings@)) == Some(bindings_view(v@)),
            None => expr_rows(*expr, opt_name(*out), bindings_view(bindings@)) is None,
        },
{
    let ghost all = bindings_view(bindings@);
    let mut result: Vec<Bindings> = Vec::new();
    let mut i: usize = 0;
    while i < bindings.len()
        invariant
            i <= bindings.len(),
            all == bindings_view(bindings@),
            expr_rows(*expr, opt_name(*out), all.subrange(0, i as int)) == Some(bindings_view(result@)),
        decreases bindings.len() - i,
    {
        proof {
            assert(all.subrange(0, i + 1).drop_last() =~= all.subrange(0, i as int));
        }
        let b = &bindings[i];
        match eval_expr_checked(expr, b) {
            Ok(value) => match out {
                None => {
                    if is_truthy(&value) {
                        let ghost before = bindings_view(result@);
                        result.push(b.clone());
                        assert(bindings_view(result@) =~= before.push(b@));
                    }
                },
                Some(var) => {
                    let ghost before = bindings_view(result@);
                    let mut nb = b.clone();
                    nb.insert(var.clone(), value);
                    result.push(nb);
                    assert(bindings_view(result@) =~= before.push(b@.insert(var@, value@)));
                },
            },
            Err(EvalFail::Error) => {},
            Err(EvalFail::Overflow) => {
                proof {
                    let k = i as int;
                    assert(expr_row(*expr, opt_name(*out), all[k]) is Err);
                    assert(expr_rows(*expr, opt_name(*out), all.subrange(0, k + 1)) is None);
                    lemma_expr_rows_none_extends(*expr, opt_name(*out), all, k + 1);
                    assert(all.subrange(0, all.len() as int) =~= all);
                }
                return None;
            },
        }
        i = i + 1;
    }
    assert(all.subrange(0, bindings.len() as int) =~= all);
    Some(result)
}

proof fn lemma_expr_rows_none_extends(
    e: Expr,
    out: Option<Seq<char>>,
    all: Seq<Map<Seq<char>, ValueV>>,
    k: int,
)
    requires
        0 <= k <= all.len(),
        expr_rows(e, out, all.subrange(0, k)) is None,
    ensures
        expr_rows(e, out, all.subrange(0, all.len() as int)) is None,
    decreases all.len() - k,
{
    if k < all.len() {
        assert(all.subrange(0, k + 1).drop_last() =~= all.subrange(0, k));
        lemma_expr_rows_none_extends(e, out, all, k + 1);
    }
}

/// Applies every expression clause of `where_clauses` in order, reporting an
/// overflow as `None`.
pub fn apply_expr_clauses_checked(bindings: Vec<Bindings>, where_clauses: &[WhereClause]) -> (r:
    Option<Vec<Bindings>>)
    ensures
        match r {
            Some(v) => expr_clauses_rows(bindings_view(bindings@), clause_seq_view(where_clauses@)) == Some(bindings_view(v@)),
            None => expr_clauses_rows(bindings_view(bindings@), clause_seq_view(where_clauses@)) is None,
        },
{
    let ghost start = bindings_view(bindings@);
    let mut current = bindings;
    let mut i: usize = 0;
    while i < where_clauses.len()
        invariant
            i <= where_clauses.len(),
            start == bindings_view(bindings@),
            expr_clauses_rows(start, clause_seq_view(where_clauses@).subrange(0, i as int)) == Some(bindings_view(current@)),
        decreases where_clauses.len() - i,
    {
        proof {
            assert(clause_seq_view(where_clauses@).subrange(0, i + 1).drop_last() =~= clause_seq_view(where_clauses@).subrange(0, i as int));
        }
        if let WhereClause::Expr { expr, binding } = &where_clauses[i] {
            match apply_one_expr(current, expr, binding) {
                Some(next) => {
                    current = next;
                },
                None => {
                    proof {
                        let pre = clause_seq_view(where_clauses@).subrange(0, i + 1);
                        assert(pre.last() == where_clauses@[i as int]@);
                        assert(expr_clauses_rows(start, pre) is None);
                        lemma_clauses_none_extends(start, clause_seq_view(where_clauses@), i as int + 1);
                        assert(expr_clauses_rows(start, clause_seq_view(where_clauses@)) is None);
                        assert(start == bindings_view(bindings@));
                    }
                    return None;
                },
            }
        }
        i = i + 1;
    }
    assert(clause_seq_view(where_clauses@).subrange(0, where_clauses.len() as int) =~= clause_seq_view(where_clauses@));
    Some(current)
}

proof fn lemma_clauses_none_extends(start: Seq<Map<Seq<char>, ValueV>>, cs: Seq<ClauseV>, k: int)
    requires
        0 <= k <= cs.len(),
        expr_clauses_rows(start, cs.subrange(0, k)) is None,
    ensures
        expr_clauses_rows(start, cs) is None,
    decreases cs.len() - k,
{
    if k < cs.len() {
        assert(cs.subrange(0, k + 1).drop_last() =~= cs.subrange(0, k));
        lemma_clauses_none_extends(start, cs, k + 1);
    } else {
        assert(cs.subrange(0, k) =~= cs);
    }
}

/// Apply all WhereClause::Expr clauses from `where_clauses` to `bindings`.
///
/// Filter-form (`binding: None`) drops the row if the expr is not truthy or errors.
/// Binding-form (`binding: Some(var)`) extends the row with the computed value.
/// Type mismatches and errors silently drop the row.
pub fn apply_expr_clauses(bindings: Vec<Bindings>, where_clauses: &[WhereClause]) -> (r: Vec<Bindings>)
    requires
        expr_clauses_rows(bindings_view(bindings@), clause_seq_view(where_clauses@)) is Some,
    ensures
        expr_clauses_rows(bindings_view(bindings@), clause_seq_view(where_clauses@)) == Some(bindings_view(r@)),
{
    match apply_expr_clauses_checked(bindings, where_clauses) {
        Some(v) => v,
        None => Vec::new(),
    }
}

} // verus!

verus! {

/// Comparisons of integers are the integers' order: `<`, `>`, `<=` and `>=`
/// hold exactly when they hold of the numbers (so `<=` and `>=` hold of
/// equal numbers), and equality is the values' equality.
pub proof fn lemma_integer_comparisons(a: i64, b: i64)
    ensures
        spec_binop(BinOp::Lt, ValueV::Integer(a), ValueV::Integer(b)) == EvalV::Val(ValueV::Boolean(a < b)),
        spec_binop(BinOp::Gt, ValueV::Integer(a), ValueV::Integer(b)) == EvalV::Val(ValueV::Boolean(a > b)),
        spec_binop(BinOp::Lte, ValueV::Integer(a), ValueV::Integer(b)) == EvalV::Val(ValueV::Boolean(a <= b)),
        spec_binop(BinOp::Gte, ValueV::Integer(a), ValueV::Integer(b)) == EvalV::Val(ValueV::Boolean(a >= b)),
        spec_binop(BinOp::Lte, ValueV::Integer(a), ValueV::Integer(a)) == EvalV::Val(ValueV::Boolean(true)),
        spec_binop(BinOp::Gte, ValueV::Integer(a), ValueV::Integer(a)) == EvalV::Val(ValueV::Boolean(true)),
        spec_binop(BinOp::Lt, ValueV::Integer(a), ValueV::Integer(a)) == EvalV::Val(ValueV::Boolean(false)),
        spec_binop(BinOp::Gt, ValueV::Integer(a), ValueV::Integer(a)) == EvalV::Val(ValueV::Boolean(false)),
{
}

/// Equality and inequality compare any two values, of any types.
pub proof fn lemma_equality(l: ValueV, r: ValueV)
    ensures
        spec_binop(BinOp::Eq, l, r) == EvalV::Val(ValueV::Boolean(l == r)),
        spec_binop(BinOp::Neq, l, r) == EvalV::Val(ValueV::Boolean(l != r)),
        spec_binop(BinOp::Eq, l, l) == EvalV::Val(ValueV::Boolean(true)),
{
}

/// Integer arithmetic is exact whenever the exact result fits in 64 bits,
/// and division truncates toward zero; dividing by zero is an error.
pub proof fn lemma_integer_arithmetic(a: i64, b: i64)
    ensures
        i64::MIN <= a + b <= i64::MAX ==> spec_binop(BinOp::Add, ValueV::Integer(a), ValueV::Integer(b))
            == EvalV::Val(ValueV::Integer((a + b) as i64)),
        i64::MIN <= a - b <= i64::MAX ==> spec_binop(BinOp::Sub, ValueV::Integer(a), ValueV::Integer(b))
            == EvalV::Val(ValueV::Integer((a - b) as i64)),
        i64::MIN <= a * b <= i64::MAX ==> spec_binop(BinOp::Mul, ValueV::Integer(a), ValueV::Integer(b))
            == EvalV::Val(ValueV::Integer((a * b) as i64)),
        spec_binop(BinOp::Div, ValueV::Integer(a), ValueV::Integer(0)) == EvalV::Error,
        a >= 0 && b > 0 ==> spec_binop(BinOp::Div, ValueV::Integer(a), ValueV::Integer(b))
            == EvalV::Val(ValueV::Integer(((a as int) / (b as int)) as i64)),
        a < 0 && b > 0 ==> spec_binop(BinOp::Div, ValueV::Integer(a), ValueV::Integer(b))
            == EvalV::Val(ValueV::Integer((-((-(a as int)) / (b as int))) as i64)),
        a > 0 && b < 0 ==> spec_binop(BinOp::Div, ValueV::Integer(a), ValueV::Integer(b))
            == EvalV::Val(ValueV::Integer((-((a as int) / (-(b as int)))) as i64)),
        a < 0 && b < 0 && !(a == i64::MIN && b == -1) ==> spec_binop(BinOp::Div, ValueV::Integer(a), ValueV::Integer(b))
            == EvalV::Val(ValueV::Integer(((-(a as int)) / (-(b as int))) as i64)),
{
}

/// Whether the characters of `p` appear in `s` from position `k` on.
pub open spec fn chars_at(s: Seq<char>, p: Seq<char>, k: int) -> bool {
    0 <= k && k + p.len() <= s.len() && forall|i: int| 0 <= i < p.len() ==> s[k + i] == p[i]
}

/// The string predicates: `starts-with?` holds when the pattern is the
/// string's first characters, `ends-with?` when it is its last characters,
/// and `includes?` when it occurs at some position.
pub proof fn lemma_string_predicates(s: Seq<char>, p: Seq<char>)
    ensures
        spec_binop(BinOp::StartsWith, ValueV::String(s), ValueV::String(p)) == EvalV::Val(ValueV::Boolean(
            p.len() <= s.len() && forall|i: int| 0 <= i < p.len() ==> s[i] == p[i],
        )),
        spec_binop(BinOp::EndsWith, ValueV::String(s), ValueV::String(p)) == EvalV::Val(ValueV::Boolean(
            p.len() <= s.len() && forall|i: int| 0 <= i < p.len() ==> s[s.len() - p.len() + i] == p[i],
        )),
        spec_binop(BinOp::Contains, ValueV::String(s), ValueV::String(p)) == EvalV::Val(ValueV::Boolean(
            exists|k: int| #[trigger] chars_at(s, p, k),
        )),
{
    let sw = p.len() <= s.len() && forall|i: int| 0 <= i < p.len() ==> s[i] == p[i];
    if p.len() <= s.len() {
        if sw {
            assert(s.subrange(0, p.len() as int) =~= p);
        }
        if s.subrange(0, p.len() as int) == p {
            assert forall|i: int| 0 <= i < p.len() implies s[i] == p[i] by {
                assert(s.subrange(0, p.len() as int)[i] == s[i]);
            }
        }
        let ew = forall|i: int| 0 <= i < p.len() ==> s[s.len() - p.len() + i] == p[i];
        if ew {
            assert(s.subrange(s.len() - p.len(), s.len() as int) =~= p);
        }
        if s.subrange(s.len() - p.len(), s.len() as int) == p {
            assert forall|i: int| 0 <= i < p.len() implies s[s.len() - p.len() + i] == p[i] by {
                assert(s.subrange(s.len() - p.len(), s.len() as int)[i] == s[s.len() - p.len() + i]);
            }
        }
    }
    let cw = exists|k: int| #[trigger] chars_at(s, p, k);
    if cw {
        let k = choose|k: int| #[trigger] chars_at(s, p, k);
        assert(s.subrange(k, k + p.len()) =~= p);
        assert(occurs_at(p, s, k));
    }
    if contains_seq(s, p) {
        let k = choose|k: int| occurs_at(p, s, k);
        assert forall|i: int| 0 <= i < p.len() implies s[k + i] == p[i] by {
            assert(s.subrange(k, k + p.len())[i] == s[k + i]);
        }
        assert(chars_at(s, p, k));
    }
}

/// The type predicates hold of exactly the values of their type.
pub proof fn lemma_type_predicates(v: ValueV)
    ensures
        spec_unop(UnaryOp::StringQ, v) <==> v is String,
        spec_unop(UnaryOp::IntegerQ, v) <==> v is Integer,
        spec_unop(UnaryOp::BooleanQ, v) <==> v is Boolean,
        spec_unop(UnaryOp::NilQ, v) <==> v is Null,
{
}


/// `float?` holds of exactly the float values.
pub proof fn lemma_float_predicate(v: ValueV)
    ensures
        spec_unop(UnaryOp::FloatQ, v) <==> v is Float,
{
}

/// Truthiness: `true` is truthy and `false` is not, an integer is truthy
/// exactly when it is not zero, and strings, keywords, references and `nil`
/// are never truthy.
pub proof fn lemma_truthiness(i: i64, st: Seq<char>, u: u128)
    ensures
        truthy(ValueV::Boolean(true)),
        !truthy(ValueV::Boolean(false)),
        truthy(ValueV::Integer(i)) <==> i != 0,
        !truthy(ValueV::String(st)),
        !truthy(ValueV::Keyword(st)),
        !truthy(ValueV::Ref(u)),
        !truthy(ValueV::Null),
{
}

/// An operator applied to a variable and a literal compares the variable's
/// value in the row with the literal; an unbound variable is an error.
pub proof fn lemma_eval_var_op_lit(op: BinOp, x: String, c: Value, b: Map<Seq<char>, ValueV>)
    ensures
        spec_eval(Expr::BinOp(op, Box::new(Expr::Var(x)), Box::new(Expr::Lit(c))), b) == if b.contains_key(x@) {
            spec_binop(op, b[x@], c@)
        } else {
            EvalV::Error
        },
        spec_eval(Expr::Var(x), b) == if b.contains_key(x@) { EvalV::Val(b[x@]) } else { EvalV::Error },
        spec_eval(Expr::Lit(c), b) == EvalV::Val(c@),
{
}

/// Whether the expression has a truthy value on the row.
pub open spec fn evaluates_truthy(e: Expr, r: Map<Seq<char>, ValueV>) -> bool {
    match spec_eval(e, r) {
        EvalV::Val(v) => truthy(v),
        _ => false,
    }
}

/// A filter clause (one without an output variable) keeps exactly the rows
/// on which the expression's value is truthy, in their order: a row on which
/// it is falsy or an error is dropped.
pub proof fn lemma_filter_clause_keeps_truthy(e: Expr, bs: Seq<Map<Seq<char>, ValueV>>)
    requires
        forall|i: int| 0 <= i < bs.len() ==> !(spec_eval(e, #[trigger] bs[i]) is Overflow),
    ensures
        expr_rows(e, None, bs) is Some,
        forall|r: Map<Seq<char>, ValueV>| #[trigger] expr_rows(e, None, bs)->0.contains(r) <==> bs.contains(r)
            && evaluates_truthy(e, r),
    decreases bs.len(),
{
    if bs.len() > 0 {
        let rest = bs.drop_last();
        assert forall|i: int| 0 <= i < rest.len() implies !(spec_eval(e, #[trigger] rest[i]) is Overflow) by {
            assert(rest[i] == bs[i]);
        }
        lemma_filter_clause_keeps_truthy(e, rest);
        let last = bs.last();
        assert(!(spec_eval(e, bs[bs.len() - 1]) is Overflow));
        let prev = expr_rows(e, None, rest)->0;
        let cur = expr_rows(e, None, bs)->0;
        assert forall|r: Map<Seq<char>, ValueV>| #[trigger] cur.contains(r) <==> bs.contains(r)
            && evaluates_truthy(e, r) by {
            if cur.contains(r) {
                let m = choose|m: int| 0 <= m < cur.len() && cur[m] == r;
                if m < prev.len() {
                    assert(prev[m] == r);
                    assert(prev.contains(r));
                    let w = choose|w: int| 0 <= w < rest.len() && rest[w] == r;
                    assert(bs[w] == r);
                } else {
                    assert(r == last);
                    assert(bs[bs.len() - 1] == r);
                }
            }
            if bs.contains(r) && evaluates_truthy(e, r) {
                let w = choose|w: int| 0 <= w < bs.len() && bs[w] == r;
                if w < bs.len() - 1 {
                    assert(rest[w] == r);
                    assert(prev.contains(r));
                    let m = choose|m: int| 0 <= m < prev.len() && prev[m] == r;
                    assert(cur[m] == r);
                } else {
                    assert(cur[cur.len() - 1] == r);
                }
            }
        }
    }
}

/// A binding clause gives each row, in order, extended with the
/// expression's value under the output variable; rows on which the
/// expression is an error are dropped.
pub proof fn lemma_binding_clause_extends(e: Expr, out: Seq<char>, b: Map<Seq<char>, ValueV>)
    ensures
        spec_eval(e, b) matches EvalV::Val(v) ==> expr_rows(e, Some(out), seq![b]) == Some(seq![b.insert(out, v)]),
        spec_eval(e, b) is Error ==> expr_rows(e, Some(out), seq![b]) == Some(Seq::<Map<Seq<char>, ValueV>>::empty()),
{
    let one = seq![b];
    let none = Seq::<Map<Seq<char>, ValueV>>::empty();
    assert(one.drop_last() =~= none);
    assert(one.last() == b);
    assert(expr_rows(e, Some(out), one.drop_last()) == Some(none));
    if let EvalV::Val(v) = spec_eval(e, b) {
        assert(expr_row(e, Some(out), b) == Ok::<Option<Map<Seq<char>, ValueV>>, ()>(Some(b.insert(out, v))));
        assert(none.push(b.insert(out, v)) =~= seq![b.insert(out, v)]);
    }
    if spec_eval(e, b) is Error {
        assert(expr_row(e, Some(out), b) == Ok::<Option<Map<Seq<char>, ValueV>>, ()>(None));
    }
}

} // verus!
