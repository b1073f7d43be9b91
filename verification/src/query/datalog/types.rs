//! The Datalog syntax tree: EDN values, patterns, where-clauses, queries,
//! rules, transactions and commands.
use vstd::prelude::*;
use crate::graph::types::{Value, ValueV};
use crate::text::{concat3, nat_text, push_str, str_is, to_owned_string, usize_to_string};


verus! {

/// EDN (Extensible Data Notation) value: the core data of EDN/Datalog syntax.
///
/// A floating-point literal is held as its decimal text.
#[derive(Debug, PartialEq)]
pub enum EdnValue {
    /// Keyword: :person/name, :find, :where
    Keyword(String),
    /// Symbol: ?name, ?e (logic variables), predicate names
    Symbol(String),
    /// String literal: "Alice"
    String(String),
    /// Integer: 42
    Integer(i64),
    /// Float literal text: 3.14
    Float(String),
    /// Boolean: true, false
    Boolean(bool),
    /// UUID: #uuid "550e8400-e29b-41d4-a716-446655440000"
    Uuid(u128),
    /// Vector: [...]
    Vector(Vec<EdnValue>),
    /// List: (...)
    List(Vec<EdnValue>),
    /// Map literal: {:key val ...}
    Mapping(Vec<(EdnValue, EdnValue)>),
    /// Null/nil
    Nil,
}

/// The mathematical model of an [`EdnValue`].
pub enum EdnV {
    Keyword(Seq<char>),
    Symbol(Seq<char>),
    String(Seq<char>),
    Integer(i64),
    Float(Seq<char>),
    Boolean(bool),
    Uuid(u128),
    Vector(Seq<EdnV>),
    List(Seq<EdnV>),
    Mapping(Seq<(EdnV, EdnV)>),
    Nil,
}

/// The model of an EDN value.
pub open spec fn edn_view(e: EdnValue) -> EdnV
    decreases e,
{
    match e {
        EdnValue::Keyword(s) => EdnV::Keyword(s@),
        EdnValue::Symbol(s) => EdnV::Symbol(s@),
        EdnValue::String(s) => EdnV::String(s@),
        EdnValue::Integer(i) => EdnV::Integer(i),
        EdnValue::Float(s) => EdnV::Float(s@),
        EdnValue::Boolean(b) => EdnV::Boolean(b),
        EdnValue::Uuid(u) => EdnV::Uuid(u),
        EdnValue::Vector(v) => EdnV::Vector(edn_seq_view(v@)),
        EdnValue::List(v) => EdnV::List(edn_seq_view(v@)),
        EdnValue::Mapping(v) => EdnV::Mapping(edn_pairs_view(v@)),
        EdnValue::Nil => EdnV::Nil,
    }
}

/// The models of a sequence of EDN values.
pub open spec fn edn_seq_view(s: Seq<EdnValue>) -> Seq<EdnV>
    decreases s,
{
    Seq::new(s.len(), |i: int| if 0 <= i < s.len() { edn_view(s[i]) } else { EdnV::Nil })
}

/// The models of a sequence of EDN key/value pairs.
pub open spec fn edn_pairs_view(s: Seq<(EdnValue, EdnValue)>) -> Seq<(EdnV, EdnV)>
    decreases s,
{
    Seq::new(
        s.len(),
        |i: int|
            if 0 <= i < s.len() {
                (edn_view(s[i].0), edn_view(s[i].1))
            } else {
                (EdnV::Nil, EdnV::Nil)
            },
    )
}

impl View for EdnValue {
    type V = EdnV;

    open spec fn view(&self) -> EdnV {
        edn_view(*self)
    }
}

/// Whether a symbol name is a logic variable (starts with '?').
pub open spec fn is_var_name(s: Seq<char>) -> bool {
    s.len() > 0 && s[0] == '?'
}

/// Whether an EDN model is a logic variable.
pub open spec fn edn_is_var(e: EdnV) -> bool {
    e is Symbol && is_var_name(e->Symbol_0)
}

/// Whether the first character of `s` is `c`.
pub fn first_char_is(s: &str, c: char) -> (r: bool)
    ensures
        r == (s@.len() > 0 && s@[0] == c),
{
    let n = s.unicode_len();
    if n == 0 {
        false
    } else {
        s.get_char(0) == c
    }
}

fn clone_edn_vec(v: &Vec<EdnValue>) -> (r: Vec<EdnValue>)
    ensures
        edn_seq_view(r@) == edn_seq_view(v@),
    decreases v, 0nat,
{
    let mut out: Vec<EdnValue> = Vec::new();
    let mut k: usize = 0;
    while k < v.len()
        invariant
            k <= v.len(),
            out.len() == k,
            forall|j: int| 0 <= j < k ==> #[trigger] out[j]@ == v[j]@,
        decreases v.len() - k,
    {
        proof {
            broadcast use vstd::std_specs::vec::axiom_vec_index_decreases;
            assert(decreases_to!(*v => v[k as int]));
        }
        let c = v[k].clone();
        out.push(c);
        k = k + 1;
    }
    proof {
        assert forall|j: int| 0 <= j < v.len() implies edn_seq_view(out@)[j] == edn_seq_view(v@)[j] by {
            assert(out[j]@ == v[j]@);
        }
        assert(edn_seq_view(out@) =~= edn_seq_view(v@));
    }
    out
}

fn clone_edn_pairs(v: &Vec<(EdnValue, EdnValue)>) -> (r: Vec<(EdnValue, EdnValue)>)
    ensures
        edn_pairs_view(r@) == edn_pairs_view(v@),
    decreases v, 0nat,
{
    let mut out: Vec<(EdnValue, EdnValue)> = Vec::new();
    let mut k: usize = 0;
    while k < v.len()
        invariant
            k <= v.len(),
            out.len() == k,
            forall|j: int| 0 <= j < k ==> #[trigger] out[j].0@ == v[j].0@ && out[j].1@ == v[j].1@,
        decreases v.len() - k,
    {
        proof {
            broadcast use vstd::std_specs::vec::axiom_vec_index_decreases;
            assert(decreases_to!(*v => v[k as int]));
            assert(decreases_to!(v[k as int] => v[k as int].0));
            assert(decreases_to!(v[k as int] => v[k as int].1));
        }
        let a = v[k].0.clone();
        let b = v[k].1.clone();
        out.push((a, b));
        k = k + 1;
    }
    proof {
        assert forall|j: int| 0 <= j < v.len() implies edn_pairs_view(out@)[j] == edn_pairs_view(v@)[j] by {
            assert(out[j].0@ == v[j].0@);
        }
        assert(edn_pairs_view(out@) =~= edn_pairs_view(v@));
    }
    out
}

impl Clone for EdnValue {
    fn clone(&self) -> (r: Self)
        ensures
            r@ == self@,
        decreases self, 1nat,
    {
        match self {
            EdnValue::Keyword(s) => EdnValue::Keyword(s.clone()),
            EdnValue::Symbol(s) => EdnValue::Symbol(s.clone()),
            EdnValue::String(s) => EdnValue::String(s.clone()),
            EdnValue::Integer(i) => EdnValue::Integer(*i),
            EdnValue::Float(s) => EdnValue::Float(s.clone()),
            EdnValue::Boolean(b) => EdnValue::Boolean(*b),
            EdnValue::Uuid(u) => EdnValue::Uuid(*u),
            EdnValue::Vector(v) => EdnValue::Vector(clone_edn_vec(v)),
            EdnValue::List(v) => EdnValue::List(clone_edn_vec(v)),
            EdnValue::Mapping(v) => EdnValue::Mapping(clone_edn_pairs(v)),
            EdnValue::Nil => EdnValue::Nil,
        }
    }
}

/// Copies a sequence of EDN values.
pub fn clone_edn_values(v: &Vec<EdnValue>) -> (r: Vec<EdnValue>)
    ensures
        edn_seq_view(r@) == edn_seq_view(v@),
{
    let mut out: Vec<EdnValue> = Vec::new();
    let mut k: usize = 0;
    while k < v.len()
        invariant
            k <= v.len(),
            out.len() == k,
            forall|j: int| 0 <= j < k ==> #[trigger] out[j]@ == v[j]@,
        decreases v.len() - k,
    {
        let c = v[k].clone();
        out.push(c);
        k = k + 1;
    }
    proof {
        assert forall|j: int| 0 <= j < v.len() implies edn_seq_view(out@)[j] == edn_seq_view(v@)[j] by {
            assert(out[j]@ == v[j]@);
        }
        assert(edn_seq_view(out@) =~= edn_seq_view(v@));
    }
    out
}

impl EdnValue {
    /// Check if this is a logic variable (symbol starting with ?)
    pub fn is_variable(&self) -> (r: bool)
        ensures
            r == edn_is_var(self@),
    {
        match self {
            EdnValue::Symbol(s) => first_char_is(s.as_str(), '?'),
            _ => false,
        }
    }

    /// Get the variable name if this is a variable
    pub fn as_variable(&self) -> (r: Option<&str>)
        ensures
            r is Some <==> edn_is_var(self@),
            r matches Some(name) ==> self@ == EdnV::Symbol(name@),
    {
        match self {
            EdnValue::Symbol(s) => {
                if first_char_is(s.as_str(), '?') {
                    Some(s.as_str())
                } else {
                    None
                }
            },
            _ => None,
        }
    }

    /// Check if this is a keyword
    pub fn is_keyword(&self) -> (r: bool)
        ensures
            r == (self is Keyword),
    {
        match self {
            EdnValue::Keyword(_) => true,
            _ => false,
        }
    }

    /// Get the keyword value if this is a keyword
    pub fn as_keyword(&self) -> (r: Option<&str>)
        ensures
            r is Some <==> self is Keyword,
            r matches Some(k) ==> self@ == EdnV::Keyword(k@),
    {
        match self {
            EdnValue::Keyword(k) => Some(k.as_str()),
            _ => None,
        }
    }

    /// Check if this is a vector
    pub fn is_vector(&self) -> (r: bool)
        ensures
            r == (self is Vector),
    {
        match self {
            EdnValue::Vector(_) => true,
            _ => false,
        }
    }

    /// Get the vector contents if this is a vector
    pub fn as_vector(&self) -> (r: Option<&Vec<EdnValue>>)
        ensures
            r is Some <==> self is Vector,
            r matches Some(v) ==> *self == EdnValue::Vector(*v),
    {
        match self {
            EdnValue::Vector(v) => Some(v),
            _ => None,
        }
    }

    /// Check if this is a list
    pub fn is_list(&self) -> (r: bool)
        ensures
            r == (self is List),
    {
        match self {
            EdnValue::List(_) => true,
            _ => false,
        }
    }

    /// Get the list contents if this is a list
    pub fn as_list(&self) -> (r: Option<&Vec<EdnValue>>)
        ensures
            r is Some <==> self is List,
            r matches Some(v) ==> *self == EdnValue::List(*v),
    {
        match self {
            EdnValue::List(l) => Some(l),
            _ => None,
        }
    }

    /// Check if this is a map
    pub fn is_map(&self) -> (r: bool)
        ensures
            r == (self is Mapping),
    {
        match self {
            EdnValue::Mapping(_) => true,
            _ => false,
        }
    }

    /// Get the map contents if this is a map
    pub fn as_map(&self) -> (r: Option<&Vec<(EdnValue, EdnValue)>>)
        ensures
            r is Some <==> self is Mapping,
            r matches Some(m) ==> *self == EdnValue::Mapping(*m),
    {
        match self {
            EdnValue::Mapping(m) => Some(m),
            _ => None,
        }
    }
}

/// Aggregate function applied to a logic variable in the :find clause.
#[derive(Debug, Clone, Copy, PartialEq, Eq, Structural)]
pub enum AggFunc {
    Count,
    CountDistinct,
    Sum,
    SumDistinct,
    Min,
    Max,
}

/// The hyphenated lowercase name of an aggregate function.
pub open spec fn agg_name(f: AggFunc) -> Seq<char> {
    match f {
        AggFunc::Count => "count"@,
        AggFunc::CountDistinct => "count-distinct"@,
        AggFunc::Sum => "sum"@,
        AggFunc::SumDistinct => "sum-distinct"@,
        AggFunc::Min => "min"@,
        AggFunc::Max => "max"@,
    }
}

impl AggFunc {
    /// Hyphenated lowercase name used in display and parsing.
    pub fn as_str(&self) -> (r: &'static str)
        ensures
            r@ == agg_name(*self),
    {
        match self {
            AggFunc::Count => "count",
            AggFunc::CountDistinct => "count-distinct",
            AggFunc::Sum => "sum",
            AggFunc::SumDistinct => "sum-distinct",
            AggFunc::Min => "min",
            AggFunc::Max => "max",
        }
    }
}

/// Binary operators for expression clauses.
#[derive(Debug, Clone, Copy, PartialEq, Eq, Hash, Structural)]
pub enum BinOp {
    // Comparisons — return Boolean
    Lt,
    Gt,
    Lte,
    Gte,
    Eq,
    Neq,
    // Arithmetic — return numeric Value
    Add,
    Sub,
    Mul,
    Div,
    // String predicates — return Boolean
    StartsWith,
    EndsWith,
    Contains,
    /// Regular-expression match.
    Matches,
}

/// Unary type-predicate operators — always return Boolean.
#[derive(Debug, Clone, Copy, PartialEq, Eq, Hash, Structural)]
pub enum UnaryOp {
    StringQ,
    IntegerQ,
    FloatQ,
    BooleanQ,
    NilQ,
}

/// Composable expression tree for `WhereClause::Expr`.
#[derive(Debug, PartialEq)]
pub enum Expr {
    /// Logic variable reference: `?v`
    Var(String),
    /// Literal value: `100`, `"foo"`, `true`
    Lit(Value),
    BinOp(BinOp, Box<Expr>, Box<Expr>),
    UnaryOp(UnaryOp, Box<Expr>),
}

impl Clone for Expr {
    fn clone(&self) -> (r: Self)
        ensures
            r == *self,
        decreases self,
    {
        match self {
            Expr::Var(v) => Expr::Var(v.clone()),
            Expr::Lit(v) => Expr::Lit(v.clone()),
            Expr::BinOp(op, l, r) => {
                let lc = (**l).clone();
                let rc = (**r).clone();
                Expr::BinOp(*op, Box::new(lc), Box::new(rc))
            },
            Expr::UnaryOp(op, a) => {
                let ac = (**a).clone();
                Expr::UnaryOp(*op, Box::new(ac))
            },
        }
    }
}

/// Sort direction of a window's ordering.
#[derive(Debug, Clone, Copy, PartialEq, Eq, Structural)]
pub enum Order {
    Asc,
    Desc,
}

/// A window function: a running aggregate, or a rank within the partition.
#[derive(Debug, Clone, Copy, PartialEq, Eq, Structural)]
pub enum WindowFunc {
    Sum,
    Count,
    Min,
    Max,
    Avg,
    Rank,
    RowNumber,
}

/// The registry name of a window function.
pub open spec fn window_func_name(f: WindowFunc) -> Seq<char> {
    match f {
        WindowFunc::Sum => "sum"@,
        WindowFunc::Count => "count"@,
        WindowFunc::Min => "min"@,
        WindowFunc::Max => "max"@,
        WindowFunc::Avg => "avg"@,
        WindowFunc::Rank => "rank"@,
        WindowFunc::RowNumber => "row-number"@,
    }
}

impl WindowFunc {
    /// The name the function is registered (and written) under.
    pub fn name(&self) -> (r: &'static str)
        ensures
            r@ == window_func_name(*self),
    {
        match self {
            WindowFunc::Sum => "sum",
            WindowFunc::Count => "count",
            WindowFunc::Min => "min",
            WindowFunc::Max => "max",
            WindowFunc::Avg => "avg",
            WindowFunc::Rank => "rank",
            WindowFunc::RowNumber => "row-number",
        }
    }
}

/// A window function in the :find clause: `(func ?var :over (:partition-by
/// ?p :order-by ?o))`, computed per row over its partition in order.
#[derive(Debug, PartialEq)]
pub struct WindowSpec {
    pub func: WindowFunc,
    pub var: Option<String>,
    pub partition_by: Option<String>,
    pub order_by: String,
    pub order: Order,
}

/// The model of a [`WindowSpec`].
pub struct WindowSpecV {
    pub func: WindowFunc,
    pub var: Option<Seq<char>>,
    pub partition_by: Option<Seq<char>>,
    pub order_by: Seq<char>,
    pub order: Order,
}

/// The model of an optional name.
pub open spec fn opt_name(o: Option<String>) -> Option<Seq<char>> {
    match o {
        Some(s) => Some(s@),
        None => None,
    }
}

impl View for WindowSpec {
    type V = WindowSpecV;

    open spec fn view(&self) -> WindowSpecV {
        WindowSpecV {
            func: self.func,
            var: opt_name(self.var),
            partition_by: opt_name(self.partition_by),
            order_by: self.order_by@,
            order: self.order,
        }
    }
}

fn clone_opt_name(o: &Option<String>) -> (r: Option<String>)
    ensures
        r == *o,
{
    match o {
        Some(s) => Some(s.clone()),
        None => None,
    }
}

impl Clone for WindowSpec {
    fn clone(&self) -> (r: Self)
        ensures
            r == *self,
    {
        WindowSpec {
            func: self.func,
            var: clone_opt_name(&self.var),
            partition_by: clone_opt_name(&self.partition_by),
            order_by: self.order_by.clone(),
            order: self.order,
        }
    }
}

/// A single element in the :find clause: a plain variable, an aggregate, or
/// a window function.
#[derive(Debug, PartialEq)]
pub enum FindSpec {
    /// A plain logic variable: ?name
    Variable(String),
    /// An aggregate expression: (count ?e), (sum ?salary), etc.
    Aggregate { func: AggFunc, var: String },
    /// A window function: (sum ?salary :over (:partition-by ?dept :order-by ?salary))
    Window(WindowSpec),
}

impl Clone for FindSpec {
    fn clone(&self) -> (r: Self)
        ensures
            r == *self,
    {
        match self {
            FindSpec::Variable(v) => FindSpec::Variable(v.clone()),
            FindSpec::Aggregate { func, var } => FindSpec::Aggregate { func: *func, var: var.clone() },
            FindSpec::Window(w) => FindSpec::Window(w.clone()),
        }
    }
}

/// The logic variable a find spec references.
pub open spec fn find_var(f: FindSpec) -> Seq<char> {
    match f {
        FindSpec::Variable(v) => v@,
        FindSpec::Aggregate { var, .. } => var@,
        FindSpec::Window(w) => match w.var {
            Some(v) => v@,
            None => w.order_by@,
        },
    }
}

/// The column header of a find spec: the variable, or `(func var)`.
pub open spec fn find_display(f: FindSpec) -> Seq<char> {
    match f {
        FindSpec::Variable(v) => v@,
        FindSpec::Aggregate { func, var } => "("@ + agg_name(func) + " "@ + var@ + ")"@,
        FindSpec::Window(w) => match w.var {
            Some(v) => "("@ + window_func_name(w.func) + " "@ + v@ + " :over)"@,
            None => "("@ + window_func_name(w.func) + " :over)"@,
        },
    }
}

impl FindSpec {
    /// Column header string used in QueryResult::QueryResults.vars.
    /// Variable("?name") → "?name"
    /// Aggregate { CountDistinct, "?e" } → "(count-distinct ?e)"
    pub fn display_name(&self) -> (r: String)
        ensures
            r@ == find_display(*self),
    {
        match self {
            FindSpec::Variable(v) => v.clone(),
            FindSpec::Aggregate { func, var } => {
                let mut s = concat3("(", func.as_str(), " ");
                push_str(&mut s, var.as_str());
                push_str(&mut s, ")");
                s
            },
            FindSpec::Window(w) => match &w.var {
                Some(v) => {
                    let mut s = concat3("(", w.func.name(), " ");
                    push_str(&mut s, v.as_str());
                    push_str(&mut s, " :over)");
                    s
                },
                None => concat3("(", w.func.name(), " :over)"),
            },
        }
    }

    /// The logic variable this spec references.
    pub fn var(&self) -> (r: &str)
        ensures
            r@ == find_var(*self),
    {
        match self {
            FindSpec::Variable(v) => v.as_str(),
            FindSpec::Aggregate { var, .. } => var.as_str(),
            FindSpec::Window(w) => match &w.var {
                Some(v) => v.as_str(),
                None => w.order_by.as_str(),
            },
        }
    }
}

/// A Datalog pattern: [Entity Attribute Value]
/// Variables start with ?, constants are literal values
///
/// Examples:
/// - [?e :person/name "Alice"]  - Find entity with name "Alice"
/// - [?e :person/name ?name]    - Find all entity-name pairs
/// - [:alice :friend ?friend]   - Find all friends of Alice
#[derive(Debug, PartialEq)]
pub struct Pattern {
    pub entity: EdnValue,
    pub attribute: EdnValue,
    pub value: EdnValue,
    /// Per-fact valid-time override (millis since epoch). None = use transaction-level default.
    pub valid_from: Option<i64>,
    /// Per-fact valid-time override (millis since epoch). None = use transaction-level default.
    pub valid_to: Option<i64>,
}

/// The model of a [`Pattern`].
pub struct PatternV {
    pub entity: EdnV,
    pub attribute: EdnV,
    pub value: EdnV,
    pub valid_from: Option<i64>,
    pub valid_to: Option<i64>,
}

impl View for Pattern {
    type V = PatternV;

    open spec fn view(&self) -> PatternV {
        PatternV {
            entity: self.entity@,
            attribute: self.attribute@,
            value: self.value@,
            valid_from: self.valid_from,
            valid_to: self.valid_to,
        }
    }
}

impl Clone for Pattern {
    fn clone(&self) -> (r: Self)
        ensures
            r@ == self@,
    {
        Pattern {
            entity: self.entity.clone(),
            attribute: self.attribute.clone(),
            value: self.value.clone(),
            valid_from: self.valid_from,
            valid_to: self.valid_to,
        }
    }
}

/// The message of the error for a pattern vector of the wrong length.
pub open spec fn pattern_len_error(n: nat) -> Seq<char> {
    "Pattern must have exactly 3 elements (E A V), got "@ + nat_text(n)
}

impl Pattern {
    pub fn new(entity: EdnValue, attribute: EdnValue, value: EdnValue) -> (r: Self)
        ensures
            r.entity == entity,
            r.attribute == attribute,
            r.value == value,
            r.valid_from is None,
            r.valid_to is None,
    {
        Pattern { entity, attribute, value, valid_from: None, valid_to: None }
    }

    /// Create a pattern with explicit per-fact valid-time overrides.
    pub fn with_valid_time(
        entity: EdnValue,
        attribute: EdnValue,
        value: EdnValue,
        valid_from: Option<i64>,
        valid_to: Option<i64>,
    ) -> (r: Self)
        ensures
            r.entity == entity,
            r.attribute == attribute,
            r.value == value,
            r.valid_from == valid_from,
            r.valid_to == valid_to,
    {
        Pattern { entity, attribute, value, valid_from, valid_to }
    }

    /// Parse a pattern from an EDN vector (exactly 3 elements, no per-fact map).
    pub fn from_edn(vector: &[EdnValue]) -> (r: Result<Self, String>)
        ensures
            r is Ok <==> vector@.len() == 3,
            r matches Ok(p) ==> p@ == (PatternV {
                entity: vector@[0]@,
                attribute: vector@[1]@,
                value: vector@[2]@,
                valid_from: None,
                valid_to: None,
            }),
            r matches Err(msg) ==> msg@ == pattern_len_error(vector@.len()),
    {
        if vector.len() != 3 {
            let mut msg = to_owned_string("Pattern must have exactly 3 elements (E A V), got ");
            let n = usize_to_string(vector.len());
            push_str(&mut msg, n.as_str());
            return Err(msg);
        }
        Ok(Pattern {
            entity: vector[0].clone(),
            attribute: vector[1].clone(),
            value: vector[2].clone(),
            valid_from: None,
            valid_to: None,
        })
    }
}

/// A clause in the :where section of a query
///
/// Can be a fact pattern, a rule invocation, a negation, an expression or a
/// disjunction.
#[derive(Debug, PartialEq)]
pub enum WhereClause {
    /// A fact pattern: [?e :person/name ?name]
    Pattern(Pattern),
    /// A rule invocation: (reachable ?from ?to)
    RuleInvocation {
        /// Predicate name (e.g., "reachable")
        predicate: String,
        /// Arguments (variables, constants, or UUIDs)
        args: Vec<EdnValue>,
    },
    /// Negation as failure: (not clause1 clause2 ...)
    /// Succeeds when none of the inner clauses match.
    Not(Vec<WhereClause>),
    /// not-join: explicit join variables + existentially quantified body.
    NotJoin {
        join_vars: Vec<String>,
        clauses: Vec<WhereClause>,
    },
    /// Expression clause: `[(expr) ?out?]`
    ///
    /// `binding = None`  → filter: keep binding iff `expr` evaluates to truthy.
    /// `binding = Some`  → bind the result `Value` to the named variable.
    Expr { expr: Expr, binding: Option<String> },
    /// Disjunction: (or branch1 branch2 ...) — succeeds if any branch matches.
    Or(Vec<Vec<WhereClause>>),
    /// or-join: (or-join [?v1 ?v2] branch1 branch2 ...)
    OrJoin {
        join_vars: Vec<String>,
        branches: Vec<Vec<WhereClause>>,
    },
}

/// Whether `k` names one of the temporal pseudo-attributes, which stand for
/// a fact's metadata rather than a stored attribute.
pub open spec fn pseudo_attr_name(k: Seq<char>) -> bool {
    per_fact_pseudo_attr_name(k) || k == ":db/valid-at"@
}

/// Whether `k` names a pseudo-attribute whose value belongs to each fact:
/// `:db/valid-from`, `:db/valid-to`, `:db/tx-count` or `:db/tx-id`.
pub open spec fn per_fact_pseudo_attr_name(k: Seq<char>) -> bool {
    k == ":db/valid-from"@ || k == ":db/valid-to"@ || k == ":db/tx-count"@ || k == ":db/tx-id"@
}

/// Whether `k` names a temporal pseudo-attribute.
pub fn is_pseudo_attr(k: &str) -> (r: bool)
    ensures
        r == pseudo_attr_name(k@),
{
    is_per_fact_pseudo_attr(k) || str_is(k, ":db/valid-at")
}

/// Whether `k` names a per-fact temporal pseudo-attribute.
pub fn is_per_fact_pseudo_attr(k: &str) -> (r: bool)
    ensures
        r == per_fact_pseudo_attr_name(k@),
{
    str_is(k, ":db/valid-from") || str_is(k, ":db/valid-to") || str_is(k, ":db/tx-count") || str_is(k, ":db/tx-id")
}

/// The mathematical model of a [`WhereClause`].
pub enum ClauseV {
    Pattern(PatternV),
    RuleInvocation { predicate: Seq<char>, args: Seq<EdnV> },
    Not(Seq<ClauseV>),
    NotJoin { join_vars: Seq<Seq<char>>, clauses: Seq<ClauseV> },
    Expr { expr: Expr, binding: Option<Seq<char>> },
    Or(Seq<Seq<ClauseV>>),
    OrJoin { join_vars: Seq<Seq<char>>, branches: Seq<Seq<ClauseV>> },
}

/// The model of a where clause.
pub open spec fn clause_view(c: WhereClause) -> ClauseV
    decreases c, 2nat,
{
    match c {
        WhereClause::Pattern(p) => ClauseV::Pattern(p@),
        WhereClause::RuleInvocation { predicate, args } => ClauseV::RuleInvocation {
            predicate: predicate@,
            args: edn_seq_view(args@),
        },
        WhereClause::Not(body) => ClauseV::Not(clause_seq_view(body@)),
        WhereClause::NotJoin { join_vars, clauses } => ClauseV::NotJoin {
            join_vars: join_vars@.map_values(|v: String| v@),
            clauses: clause_seq_view(clauses@),
        },
        WhereClause::Expr { expr, binding } => ClauseV::Expr {
            expr,
            binding: match binding {
                Some(b) => Some(b@),
                None => None,
            },
        },
        WhereClause::Or(branches) => ClauseV::Or(branch_seq_view(branches@)),
        WhereClause::OrJoin { join_vars, branches } => ClauseV::OrJoin {
            join_vars: join_vars@.map_values(|v: String| v@),
            branches: branch_seq_view(branches@),
        },
    }
}

/// The models of a sequence of where clauses.
pub open spec fn clause_seq_view(s: Seq<WhereClause>) -> Seq<ClauseV>
    decreases s, 1nat,
{
    Seq::new(s.len(), |i: int| if 0 <= i < s.len() { clause_view(s[i]) } else { ClauseV::Not(seq![]) })
}

/// The models of a sequence of clause lists.
pub open spec fn branch_seq_view(s: Seq<Vec<WhereClause>>) -> Seq<Seq<ClauseV>>
    decreases s, 1nat,
{
    Seq::new(s.len(), |i: int| if 0 <= i < s.len() { clause_seq_view(s[i]@) } else { seq![] })
}

impl View for WhereClause {
    type V = ClauseV;

    open spec fn view(&self) -> ClauseV {
        clause_view(*self)
    }
}

fn clone_strings_plain(v: &Vec<String>) -> (r: Vec<String>)
    ensures
        r@ == v@,
{
    crate::graph::types::clone_strings(v)
}

/// Copies a list of where clauses.
pub fn clone_clauses(v: &Vec<WhereClause>) -> (r: Vec<WhereClause>)
    ensures
        clause_seq_view(r@) == clause_seq_view(v@),
    decreases v, 1nat,
{
    let mut out: Vec<WhereClause> = Vec::new();
    let mut k: usize = 0;
    while k < v.len()
        invariant
            k <= v.len(),
            out.len() == k,
            forall|j: int| 0 <= j < k ==> #[trigger] out[j]@ == v[j]@,
        decreases v.len() - k,
    {
        proof {
            broadcast use vstd::std_specs::vec::axiom_vec_index_decreases;
            assert(decreases_to!(*v => v[k as int]));
        }
        let c = clone_clause(&v[k]);
        out.push(c);
        k = k + 1;
    }
    proof {
        assert forall|j: int| 0 <= j < v.len() implies clause_seq_view(out@)[j] == clause_seq_view(v@)[j] by {
            assert(out[j]@ == v[j]@);
        }
        assert(clause_seq_view(out@) =~= clause_seq_view(v@));
    }
    out
}

fn clone_branches(v: &Vec<Vec<WhereClause>>) -> (r: Vec<Vec<WhereClause>>)
    ensures
        branch_seq_view(r@) == branch_seq_view(v@),
    decreases v, 1nat,
{
    let mut out: Vec<Vec<WhereClause>> = Vec::new();
    let mut k: usize = 0;
    while k < v.len()
        invariant
            k <= v.len(),
            out.len() == k,
            forall|j: int| 0 <= j < k ==> clause_seq_view(#[trigger] out[j]@) == clause_seq_view(v[j]@),
        decreases v.len() - k,
    {
        proof {
            broadcast use vstd::std_specs::vec::axiom_vec_index_decreases;
            assert(decreases_to!(*v => v[k as int]));
        }
        let c = clone_clauses(&v[k]);
        out.push(c);
        k = k + 1;
    }
    proof {
        assert forall|j: int| 0 <= j < v.len() implies branch_seq_view(out@)[j] == branch_seq_view(v@)[j] by {
            assert(clause_seq_view(out[j]@) == clause_seq_view(v[j]@));
        }
        assert(branch_seq_view(out@) =~= branch_seq_view(v@));
    }
    out
}

/// Copies a where clause.
pub fn clone_clause(c: &WhereClause) -> (r: WhereClause)
    ensures
        r@ == c@,
    decreases c, 2nat,
{
    match c {
        WhereClause::Pattern(p) => WhereClause::Pattern(p.clone()),
        WhereClause::RuleInvocation { predicate, args } => WhereClause::RuleInvocation {
            predicate: predicate.clone(),
            args: clone_edn_values(args),
        },
        WhereClause::Not(body) => WhereClause::Not(clone_clauses(body)),
        WhereClause::NotJoin { join_vars, clauses } => {
            let jv = clone_strings_plain(join_vars);
            let cl = clone_clauses(clauses);
            WhereClause::NotJoin { join_vars: jv, clauses: cl }
        },
        WhereClause::Expr { expr, binding } => WhereClause::Expr {
            expr: expr.clone(),
            binding: match binding {
                Some(b) => Some(b.clone()),
                None => None,
            },
        },
        WhereClause::Or(branches) => WhereClause::Or(clone_branches(branches)),
        WhereClause::OrJoin { join_vars, branches } => {
            let jv = clone_strings_plain(join_vars);
            let br = clone_branches(branches);
            WhereClause::OrJoin { join_vars: jv, branches: br }
        },
    }
}

/// The predicate names of all rule invocations in a clause, in order,
/// including those nested inside negations and disjunctions.
pub open spec fn clause_preds(c: WhereClause) -> Seq<Seq<char>>
    decreases c,
{
    match c {
        WhereClause::Pattern(_) => Seq::empty(),
        WhereClause::RuleInvocation { predicate, .. } => seq![predicate@],
        WhereClause::Not(inner) => clauses_preds(inner@),
        WhereClause::NotJoin { clauses, .. } => clauses_preds(clauses@),
        WhereClause::Expr { .. } => Seq::empty(),
        WhereClause::Or(branches) => branches_preds(branches@),
        WhereClause::OrJoin { branches, .. } => branches_preds(branches@),
    }
}

/// The predicate names of all rule invocations in a sequence of clauses.
pub open spec fn clauses_preds(s: Seq<WhereClause>) -> Seq<Seq<char>>
    decreases s,
{
    if s.len() == 0 {
        Seq::empty()
    } else {
        clauses_preds(s.drop_last()) + clause_preds(s.last())
    }
}

/// The predicate names of all rule invocations in a sequence of branches.
pub open spec fn branches_preds(s: Seq<Vec<WhereClause>>) -> Seq<Seq<char>>
    decreases s,
{
    if s.len() == 0 {
        Seq::empty()
    } else {
        branches_preds(s.drop_last()) + clauses_preds(s.last()@)
    }
}

/// The predicate names of all rule invocations in a clause model.
pub open spec fn cv_preds(c: ClauseV) -> Seq<Seq<char>>
    decreases c,
{
    match c {
        ClauseV::Pattern(_) => Seq::empty(),
        ClauseV::RuleInvocation { predicate, .. } => seq![predicate],
        ClauseV::Not(inner) => cvs_preds(inner),
        ClauseV::NotJoin { clauses, .. } => cvs_preds(clauses),
        ClauseV::Expr { .. } => Seq::empty(),
        ClauseV::Or(branches) => bvs_preds(branches),
        ClauseV::OrJoin { branches, .. } => bvs_preds(branches),
    }
}

/// The predicate names of all rule invocations in a sequence of clause models.
pub open spec fn cvs_preds(s: Seq<ClauseV>) -> Seq<Seq<char>>
    decreases s,
{
    if s.len() == 0 {
        Seq::empty()
    } else {
        cvs_preds(s.drop_last()) + cv_preds(s.last())
    }
}

/// The predicate names of all rule invocations in a sequence of branch models.
pub open spec fn bvs_preds(s: Seq<Seq<ClauseV>>) -> Seq<Seq<char>>
    decreases s,
{
    if s.len() == 0 {
        Seq::empty()
    } else {
        bvs_preds(s.drop_last()) + cvs_preds(s.last())
    }
}

/// The invocations of a clause are those of its model.
pub proof fn lemma_clause_preds_view(c: WhereClause)
    ensures
        clause_preds(c) == cv_preds(clause_view(c)),
    decreases c, 2nat,
{
    match c {
        WhereClause::Not(inner) => lemma_clauses_preds_view(inner@),
        WhereClause::NotJoin { clauses, .. } => lemma_clauses_preds_view(clauses@),
        WhereClause::Or(branches) => lemma_branches_preds_view(branches@),
        WhereClause::OrJoin { branches, .. } => lemma_branches_preds_view(branches@),
        _ => {},
    }
}

proof fn lemma_clauses_preds_view(s: Seq<WhereClause>)
    ensures
        clauses_preds(s) == cvs_preds(clause_seq_view(s)),
    decreases s, 1nat,
{
    if s.len() > 0 {
        lemma_clauses_preds_view(s.drop_last());
        lemma_clause_preds_view(s.last());
        assert(clause_seq_view(s).drop_last() =~= clause_seq_view(s.drop_last()));
        assert(clause_seq_view(s).last() == clause_view(s.last()));
    } else {
        assert(clause_seq_view(s).len() == 0);
    }
}

proof fn lemma_branches_preds_view(s: Seq<Vec<WhereClause>>)
    ensures
        branches_preds(s) == bvs_preds(branch_seq_view(s)),
    decreases s, 1nat,
{
    if s.len() > 0 {
        lemma_branches_preds_view(s.drop_last());
        lemma_clauses_preds_view(s.last()@);
        assert(branch_seq_view(s).drop_last() =~= branch_seq_view(s.drop_last()));
        assert(branch_seq_view(s).last() == clause_seq_view(s.last()@));
    } else {
        assert(branch_seq_view(s).len() == 0);
    }
}

/// The models of a sequence of string slices.
pub open spec fn strs_view(s: Seq<&str>) -> Seq<Seq<char>> {
    s.map_values(|x: &str| x@)
}

impl WhereClause {
    /// Collect all rule invocation predicate names, recursively (including
    /// inside Not, NotJoin, Or and OrJoin bodies).
    pub fn rule_invocations(&self) -> (r: Vec<&str>)
        ensures
            strs_view(r@) == clause_preds(*self),
        decreases self, 2nat,
    {
        match self {
            WhereClause::Pattern(_) => {
                let v: Vec<&str> = Vec::new();
                assert(strs_view(v@) =~= Seq::<Seq<char>>::empty());
                v
            },
            WhereClause::RuleInvocation { predicate, .. } => {
                let mut v: Vec<&str> = Vec::new();
                v.push(predicate.as_str());
                assert(strs_view(v@) =~= seq![predicate@]);
                v
            },
            WhereClause::Not(clauses) => clauses_rule_invocations(clauses),
            WhereClause::NotJoin { clauses, .. } => clauses_rule_invocations(clauses),
            WhereClause::Expr { .. } => {
                let v: Vec<&str> = Vec::new();
                assert(strs_view(v@) =~= Seq::<Seq<char>>::empty());
                v
            },
            WhereClause::Or(branches) => branches_rule_invocations(branches),
            WhereClause::OrJoin { branches, .. } => branches_rule_invocations(branches),
        }
    }

    /// True if this clause is a Not or NotJoin containing at least one RuleInvocation.
    pub fn has_negated_invocation(&self) -> (r: bool)
        ensures
            r == match *self {
                WhereClause::Not(cs) => exists|i: int| 0 <= i < cs@.len() && cs@[i] is RuleInvocation,
                WhereClause::NotJoin { clauses: cs, .. } => exists|i: int|
                    0 <= i < cs@.len() && cs@[i] is RuleInvocation,
                _ => false,
            },
    {
        match self {
            WhereClause::Not(clauses) => any_invocation(clauses),
            WhereClause::NotJoin { clauses, .. } => any_invocation(clauses),
            _ => false,
        }
    }
}

fn any_invocation(clauses: &Vec<WhereClause>) -> (r: bool)
    ensures
        r == exists|i: int| 0 <= i < clauses@.len() && clauses@[i] is RuleInvocation,
{
    let mut i: usize = 0;
    while i < clauses.len()
        invariant
            i <= clauses.len(),
            forall|j: int| 0 <= j < i ==> !(clauses@[j] is RuleInvocation),
        decreases clauses.len() - i,
    {
        if let WhereClause::RuleInvocation { .. } = &clauses[i] {
            assert(clauses@[i as int] is RuleInvocation);
            return true;
        }
        i = i + 1;
    }
    false
}

fn append_strs<'a>(out: &mut Vec<&'a str>, more: Vec<&'a str>)
    ensures
        strs_view(final(out)@) == strs_view(old(out)@) + strs_view(more@),
{
    let mut i: usize = 0;
    let ghost start = out@;
    while i < more.len()
        invariant
            i <= more.len(),
            out@ == start + more@.subrange(0, i as int),
        decreases more.len() - i,
    {
        out.push(more[i]);
        i = i + 1;
        assert(out@ =~= start + more@.subrange(0, i as int));
    }
    assert(more@.subrange(0, more.len() as int) =~= more@);
    assert(strs_view(out@) =~= strs_view(start) + strs_view(more@));
}

fn clauses_rule_invocations(clauses: &Vec<WhereClause>) -> (r: Vec<&str>)
    ensures
        strs_view(r@) == clauses_preds(clauses@),
    decreases clauses, 1nat,
{
    let mut out: Vec<&str> = Vec::new();
    let mut i: usize = 0;
    while i < clauses.len()
        invariant
            i <= clauses.len(),
            strs_view(out@) == clauses_preds(clauses@.subrange(0, i as int)),
        decreases clauses.len() - i,
    {
        proof {
            broadcast use vstd::std_specs::vec::axiom_vec_index_decreases;
            assert(decreases_to!(*clauses => clauses[i as int]));
        }
        let more = clauses[i].rule_invocations();
        append_strs(&mut out, more);
        proof {
            let pre = clauses@.subrange(0, i + 1);
            assert(pre.drop_last() =~= clauses@.subrange(0, i as int));
            assert(pre.last() == clauses@[i as int]);
        }
        i = i + 1;
    }
    assert(clauses@.subrange(0, clauses.len() as int) =~= clauses@);
    out
}

fn branches_rule_invocations(branches: &Vec<Vec<WhereClause>>) -> (r: Vec<&str>)
    ensures
        strs_view(r@) == branches_preds(branches@),
    decreases branches, 1nat,
{
    let mut out: Vec<&str> = Vec::new();
    let mut i: usize = 0;
    while i < branches.len()
        invariant
            i <= branches.len(),
            strs_view(out@) == branches_preds(branches@.subrange(0, i as int)),
        decreases branches.len() - i,
    {
        proof {
            broadcast use vstd::std_specs::vec::axiom_vec_index_decreases;
            assert(decreases_to!(*branches => branches[i as int]));
        }
        let more = clauses_rule_invocations(&branches[i]);
        append_strs(&mut out, more);
        proof {
            let pre = branches@.subrange(0, i + 1);
            assert(pre.drop_last() =~= branches@.subrange(0, i as int));
            assert(pre.last() == branches@[i as int]);
        }
        i = i + 1;
    }
    assert(branches@.subrange(0, branches.len() as int) =~= branches@);
    out
}

/// Whether a clause, at any depth (inside negations and disjunctions too),
/// has a pattern whose attribute is a per-fact temporal pseudo-attribute.
pub open spec fn clause_uses_pseudo(c: WhereClause) -> bool
    decreases c,
{
    match c {
        WhereClause::Pattern(p) => p.attribute matches EdnValue::Keyword(k) && per_fact_pseudo_attr_name(k@),
        WhereClause::Not(inner) => clauses_use_pseudo(inner@),
        WhereClause::NotJoin { clauses, .. } => clauses_use_pseudo(clauses@),
        WhereClause::Or(branches) => branches_use_pseudo(branches@),
        WhereClause::OrJoin { branches, .. } => branches_use_pseudo(branches@),
        _ => false,
    }
}

/// Whether a clause of the sequence uses a per-fact pseudo-attribute.
pub open spec fn clauses_use_pseudo(s: Seq<WhereClause>) -> bool
    decreases s,
{
    if s.len() == 0 {
        false
    } else {
        clauses_use_pseudo(s.drop_last()) || clause_uses_pseudo(s.last())
    }
}

/// Whether a clause of one of the branches uses a per-fact pseudo-attribute.
pub open spec fn branches_use_pseudo(s: Seq<Vec<WhereClause>>) -> bool
    decreases s,
{
    if s.len() == 0 {
        false
    } else {
        branches_use_pseudo(s.drop_last()) || clauses_use_pseudo(s.last()@)
    }
}

impl WhereClause {
    /// Whether this clause, at any depth, matches a per-fact temporal
    /// pseudo-attribute (`:db/valid-from`, `:db/valid-to`, `:db/tx-count`,
    /// `:db/tx-id`).
    pub fn uses_per_fact_pseudo_attr(&self) -> (r: bool)
        ensures
            r == clause_uses_pseudo(*self),
        decreases self, 2nat,
    {
        match self {
            WhereClause::Pattern(p) => match &p.attribute {
                EdnValue::Keyword(k) => is_per_fact_pseudo_attr(k.as_str()),
                _ => false,
            },
            WhereClause::Not(clauses) => clauses_use_per_fact_pseudo_attr(clauses),
            WhereClause::NotJoin { clauses, .. } => clauses_use_per_fact_pseudo_attr(clauses),
            WhereClause::Or(branches) => branches_use_per_fact_pseudo_attr(branches),
            WhereClause::OrJoin { branches, .. } => branches_use_per_fact_pseudo_attr(branches),
            _ => false,
        }
    }
}

/// Whether a clause of the list uses a per-fact pseudo-attribute.
pub fn clauses_use_per_fact_pseudo_attr(clauses: &Vec<WhereClause>) -> (r: bool)
    ensures
        r == clauses_use_pseudo(clauses@),
    decreases clauses, 1nat,
{
    let mut found = false;
    let mut i: usize = 0;
    while i < clauses.len()
        invariant
            i <= clauses.len(),
            found == clauses_use_pseudo(clauses@.subrange(0, i as int)),
        decreases clauses.len() - i,
    {
        proof {
            broadcast use vstd::std_specs::vec::axiom_vec_index_decreases;
            assert(decreases_to!(*clauses => clauses[i as int]));
        }
        let here = clauses[i].uses_per_fact_pseudo_attr();
        proof {
            let pre = clauses@.subrange(0, i + 1);
            assert(pre.drop_last() =~= clauses@.subrange(0, i as int));
            assert(pre.last() == clauses@[i as int]);
        }
        found = found || here;
        i = i + 1;
    }
    assert(clauses@.subrange(0, clauses.len() as int) =~= clauses@);
    found
}

/// Whether a clause of one of the branches uses a per-fact pseudo-attribute.
pub fn branches_use_per_fact_pseudo_attr(branches: &Vec<Vec<WhereClause>>) -> (r: bool)
    ensures
        r == branches_use_pseudo(branches@),
    decreases branches, 1nat,
{
    let mut found = false;
    let mut i: usize = 0;
    while i < branches.len()
        invariant
            i <= branches.len(),
            found == branches_use_pseudo(branches@.subrange(0, i as int)),
        decreases branches.len() - i,
    {
        proof {
            broadcast use vstd::std_specs::vec::axiom_vec_index_decreases;
            assert(decreases_to!(*branches => branches[i as int]));
        }
        let here = clauses_use_per_fact_pseudo_attr(&branches[i]);
        proof {
            let pre = branches@.subrange(0, i + 1);
            assert(pre.drop_last() =~= branches@.subrange(0, i as int));
            assert(pre.last() == branches@[i as int]);
        }
        found = found || here;
        i = i + 1;
    }
    assert(branches@.subrange(0, branches.len() as int) =~= branches@);
    found
}

/// A Datalog query with :find and :where clauses
///
/// ```datalog
/// (query [:find ?name ?age
///         :where [?e :person/name ?name]
///                [?e :person/age ?age]])
/// ```
#[derive(Debug, PartialEq)]
pub struct DatalogQuery {
    /// Variables to return (from :find clause)
    pub find: Vec<FindSpec>,
    /// Where clauses: patterns and rule invocations
    pub where_clauses: Vec<WhereClause>,
    /// Optional transaction-time snapshot (:as-of)
    pub as_of: Option<AsOf>,
    /// Optional valid-time filter (:valid-at)
    pub valid_at: Option<ValidAt>,
    /// Grouping variables that participate in grouping but are excluded from output rows.
    pub with_vars: Vec<String>,
}

/// A rule invocation's model: predicate name and argument models.
pub type InvocationV = (Seq<char>, Seq<EdnV>);

/// The rule invocations of a clause, recursively through negations and
/// disjunctions, in order.
pub open spec fn clause_invocations(c: WhereClause) -> Seq<InvocationV>
    decreases c,
{
    match c {
        WhereClause::RuleInvocation { predicate, args } => seq![(predicate@, edn_seq_view(args@))],
        WhereClause::Not(inner) => clauses_invocations(inner@),
        WhereClause::NotJoin { clauses, .. } => clauses_invocations(clauses@),
        WhereClause::Or(branches) => branches_invocations(branches@),
        WhereClause::OrJoin { branches, .. } => branches_invocations(branches@),
        _ => Seq::empty(),
    }
}

/// The rule invocations of a sequence of clauses, recursively.
pub open spec fn clauses_invocations(s: Seq<WhereClause>) -> Seq<InvocationV>
    decreases s,
{
    if s.len() == 0 {
        Seq::empty()
    } else {
        clauses_invocations(s.drop_last()) + clause_invocations(s.last())
    }
}

/// The rule invocations of a sequence of branches, recursively.
pub open spec fn branches_invocations(s: Seq<Vec<WhereClause>>) -> Seq<InvocationV>
    decreases s,
{
    if s.len() == 0 {
        Seq::empty()
    } else {
        branches_invocations(s.drop_last()) + clauses_invocations(s.last()@)
    }
}

/// The top-level rule invocations of a sequence of clauses (not nested ones).
pub open spec fn top_invocations(s: Seq<WhereClause>) -> Seq<InvocationV>
    decreases s.len(),
{
    if s.len() == 0 {
        Seq::empty()
    } else {
        top_invocations(s.drop_last()) + match s.last() {
            WhereClause::RuleInvocation { predicate, args } => seq![(predicate@, edn_seq_view(args@))],
            _ => Seq::empty(),
        }
    }
}

/// The patterns among a sequence of clauses, in order.
pub open spec fn clause_patterns(s: Seq<WhereClause>) -> Seq<PatternV>
    decreases s.len(),
{
    if s.len() == 0 {
        Seq::empty()
    } else {
        clause_patterns(s.drop_last()) + match s.last() {
            WhereClause::Pattern(p) => seq![p@],
            _ => Seq::empty(),
        }
    }
}

/// The models of invocation records.
pub open spec fn invocations_view(s: Seq<(String, Vec<EdnValue>)>) -> Seq<InvocationV> {
    s.map_values(|x: (String, Vec<EdnValue>)| (x.0@, edn_seq_view(x.1@)))
}

/// The models of a sequence of patterns.
pub open spec fn patterns_view(s: Seq<Pattern>) -> Seq<PatternV> {
    s.map_values(|p: Pattern| p@)
}

fn append_invocations(out: &mut Vec<(String, Vec<EdnValue>)>, more: Vec<(String, Vec<EdnValue>)>)
    ensures
        invocations_view(final(out)@) == invocations_view(old(out)@) + invocations_view(more@),
{
    let mut more = more;
    let ghost start = out@;
    let ghost all = more@;
    let mut k: usize = 0;
    let n = more.len();
    while k < n
        invariant
            n == all.len(),
            k <= n,
            more@ == all.subrange(k as int, n as int),
            out@ == start + all.subrange(0, k as int),
        decreases n - k,
    {
        let x = more.remove(0);
        out.push(x);
        k = k + 1;
        assert(out@ =~= start + all.subrange(0, k as int));
        assert(more@ =~= all.subrange(k as int, n as int));
    }
    assert(all.subrange(0, n as int) =~= all);
    assert(invocations_view(out@) =~= invocations_view(start) + invocations_view(all));
}

fn clause_invocations_exec(c: &WhereClause) -> (r: Vec<(String, Vec<EdnValue>)>)
    ensures
        invocations_view(r@) == clause_invocations(*c),
    decreases c, 2nat,
{
    match c {
        WhereClause::RuleInvocation { predicate, args } => {
            let mut v: Vec<(String, Vec<EdnValue>)> = Vec::new();
            v.push((predicate.clone(), clone_edn_values(args)));
            assert(invocations_view(v@) =~= seq![(predicate@, edn_seq_view(args@))]);
            v
        },
        WhereClause::Not(inner) => collect_rule_invocations_recursive(inner),
        WhereClause::NotJoin { clauses, .. } => collect_rule_invocations_recursive(clauses),
        WhereClause::Or(branches) => branches_invocations_exec(branches),
        WhereClause::OrJoin { branches, .. } => branches_invocations_exec(branches),
        _ => {
            let v: Vec<(String, Vec<EdnValue>)> = Vec::new();
            assert(invocations_view(v@) =~= Seq::<InvocationV>::empty());
            v
        },
    }
}

fn collect_rule_invocations_recursive(clauses: &Vec<WhereClause>) -> (r: Vec<(String, Vec<EdnValue>)>)
    ensures
        invocations_view(r@) == clauses_invocations(clauses@),
    decreases clauses, 1nat,
{
    let mut out: Vec<(String, Vec<EdnValue>)> = Vec::new();
    let mut i: usize = 0;
    while i < clauses.len()
        invariant
            i <= clauses.len(),
            invocations_view(out@) == clauses_invocations(clauses@.subrange(0, i as int)),
        decreases clauses.len() - i,
    {
        proof {
            broadcast use vstd::std_specs::vec::axiom_vec_index_decreases;
            assert(decreases_to!(*clauses => clauses[i as int]));
        }
        let more = clause_invocations_exec(&clauses[i]);
        append_invocations(&mut out, more);
        proof {
            let pre = clauses@.subrange(0, i + 1);
            assert(pre.drop_last() =~= clauses@.subrange(0, i as int));
        }
        i = i + 1;
    }
    assert(clauses@.subrange(0, clauses.len() as int) =~= clauses@);
    out
}

fn branches_invocations_exec(branches: &Vec<Vec<WhereClause>>) -> (r: Vec<(String, Vec<EdnValue>)>)
    ensures
        invocations_view(r@) == branches_invocations(branches@),
    decreases branches, 1nat,
{
    let mut out: Vec<(String, Vec<EdnValue>)> = Vec::new();
    let mut i: usize = 0;
    while i < branches.len()
        invariant
            i <= branches.len(),
            invocations_view(out@) == branches_invocations(branches@.subrange(0, i as int)),
        decreases branches.len() - i,
    {
        proof {
            broadcast use vstd::std_specs::vec::axiom_vec_index_decreases;
            assert(decreases_to!(*branches => branches[i as int]));
        }
        let more = collect_rule_invocations_recursive(&branches[i]);
        append_invocations(&mut out, more);
        proof {
            let pre = branches@.subrange(0, i + 1);
            assert(pre.drop_last() =~= branches@.subrange(0, i as int));
        }
        i = i + 1;
    }
    assert(branches@.subrange(0, branches.len() as int) =~= branches@);
    out
}

impl DatalogQuery {
    pub fn new(find: Vec<FindSpec>, where_clauses: Vec<WhereClause>) -> (r: Self)
        ensures
            r.find == find,
            r.where_clauses == where_clauses,
            r.as_of is None,
            r.valid_at is None,
            r.with_vars@.len() == 0,
    {
        DatalogQuery { find, where_clauses, as_of: None, valid_at: None, with_vars: Vec::new() }
    }

    /// Helper: Create a query with only patterns (for backward compatibility)
    pub fn from_patterns(find: Vec<FindSpec>, patterns: Vec<Pattern>) -> (r: Self)
        ensures
            r.find == find,
            r.where_clauses@.len() == patterns@.len(),
            forall|i: int| 0 <= i < patterns@.len() ==> r.where_clauses@[i] == WhereClause::Pattern(patterns@[i]),
            r.as_of is None,
            r.valid_at is None,
            r.with_vars@.len() == 0,
    {
        let mut patterns = patterns;
        let ghost all = patterns@;
        let n = patterns.len();
        let mut clauses: Vec<WhereClause> = Vec::new();
        let mut k: usize = 0;
        while k < n
            invariant
                n == all.len(),
                k <= n,
                patterns@ == all.subrange(k as int, n as int),
                clauses@.len() == k,
                forall|i: int| 0 <= i < k ==> clauses@[i] == WhereClause::Pattern(all[i]),
            decreases n - k,
        {
            let p = patterns.remove(0);
            clauses.push(WhereClause::Pattern(p));
            k = k + 1;
            assert(patterns@ =~= all.subrange(k as int, n as int));
        }
        DatalogQuery { find, where_clauses: clauses, as_of: None, valid_at: None, with_vars: Vec::new() }
    }

    /// Helper: Get all patterns from where clauses
    pub fn get_patterns(&self) -> (r: Vec<Pattern>)
        ensures
            patterns_view(r@) == clause_patterns(self.where_clauses@),
    {
        let mut out: Vec<Pattern> = Vec::new();
        let mut i: usize = 0;
        while i < self.where_clauses.len()
            invariant
                i <= self.where_clauses.len(),
                patterns_view(out@) == clause_patterns(self.where_clauses@.subrange(0, i as int)),
            decreases self.where_clauses.len() - i,
        {
            let ghost before = out@;
            if let WhereClause::Pattern(p) = &self.where_clauses[i] {
                out.push(p.clone());
                assert(patterns_view(out@) =~= patterns_view(before) + seq![p@]);
            } else {
                assert(patterns_view(out@) =~= patterns_view(before) + Seq::<PatternV>::empty());
            }
            proof {
                let pre = self.where_clauses@.subrange(0, i + 1);
                assert(pre.drop_last() =~= self.where_clauses@.subrange(0, i as int));
            }
            i = i + 1;
        }
        assert(self.where_clauses@.subrange(0, self.where_clauses.len() as int) =~= self.where_clauses@);
        out
    }

    /// Helper: Get all rule invocations from where clauses, including those
    /// nested inside Not/NotJoin bodies and Or/OrJoin branches.
    pub fn get_rule_invocations(&self) -> (r: Vec<(String, Vec<EdnValue>)>)
        ensures
            invocations_view(r@) == clauses_invocations(self.where_clauses@),
    {
        collect_rule_invocations_recursive(&self.where_clauses)
    }

    /// Get only top-level rule invocations — those not nested inside another clause.
    pub fn get_top_level_rule_invocations(&self) -> (r: Vec<(String, Vec<EdnValue>)>)
        ensures
            invocations_view(r@) == top_invocations(self.where_clauses@),
    {
        let mut out: Vec<(String, Vec<EdnValue>)> = Vec::new();
        let mut i: usize = 0;
        while i < self.where_clauses.len()
            invariant
                i <= self.where_clauses.len(),
                invocations_view(out@) == top_invocations(self.where_clauses@.subrange(0, i as int)),
            decreases self.where_clauses.len() - i,
        {
            let ghost before = out@;
            if let WhereClause::RuleInvocation { predicate, args } = &self.where_clauses[i] {
                out.push((predicate.clone(), clone_edn_values(args)));
                assert(invocations_view(out@) =~= invocations_view(before) + seq![(predicate@, edn_seq_view(args@))]);
            } else {
                assert(invocations_view(out@) =~= invocations_view(before) + Seq::<InvocationV>::empty());
            }
            proof {
                let pre = self.where_clauses@.subrange(0, i + 1);
                assert(pre.drop_last() =~= self.where_clauses@.subrange(0, i as int));
            }
            i = i + 1;
        }
        assert(self.where_clauses@.subrange(0, self.where_clauses.len() as int) =~= self.where_clauses@);
        out
    }

    /// Check if this query uses any rules (including inside nested clauses at any depth)
    pub fn uses_rules(&self) -> (r: bool)
        ensures
            r == exists|i: int| 0 <= i < self.where_clauses@.len()
                && #[trigger] clause_preds(self.where_clauses@[i]).len() > 0,
    {
        let mut i: usize = 0;
        while i < self.where_clauses.len()
            invariant
                i <= self.where_clauses.len(),
                forall|j: int| 0 <= j < i ==> #[trigger] clause_preds(self.where_clauses@[j]).len() == 0,
            decreases self.where_clauses.len() - i,
        {
            let preds = self.where_clauses[i].rule_invocations();
            if preds.len() > 0 {
                assert(clause_preds(self.where_clauses@[i as int]).len() > 0);
                return true;
            }
            i = i + 1;
        }
        false
    }
}

/// A Datalog rule definition: head `(predicate ?a ?b)` and body clauses.
#[derive(Debug, PartialEq)]
pub struct Rule {
    /// The rule head: (predicate ?var1 ?var2)
    pub head: Vec<EdnValue>,
    /// The rule body: typed where clauses (patterns, rule invocations, not)
    pub body: Vec<WhereClause>,
}

/// The mathematical model of a [`Rule`].
pub struct RuleV {
    pub head: Seq<EdnV>,
    pub body: Seq<ClauseV>,
}

impl View for Rule {
    type V = RuleV;

    open spec fn view(&self) -> RuleV {
        RuleV { head: edn_seq_view(self.head@), body: clause_seq_view(self.body@) }
    }
}

impl Clone for Rule {
    fn clone(&self) -> (r: Self)
        ensures
            r@ == self@,
    {
        Rule { head: clone_edn_values(&self.head), body: clone_clauses(&self.body) }
    }
}

impl Rule {
    pub fn new(head: Vec<EdnValue>, body: Vec<WhereClause>) -> (r: Self)
        ensures
            r.head == head,
            r.body == body,
    {
        Rule { head, body }
    }
}

/// A transaction: list of facts to assert or retract
#[derive(Debug, PartialEq)]
pub struct Transaction {
    /// List of fact triples to assert
    pub facts: Vec<Pattern>,
    /// Optional transaction-level default valid_from (millis since epoch)
    pub valid_from: Option<i64>,
    /// Optional transaction-level default valid_to (millis since epoch)
    pub valid_to: Option<i64>,
}

impl Transaction {
    pub fn new(facts: Vec<Pattern>) -> (r: Self)
        ensures
            r.facts == facts,
            r.valid_from is None,
            r.valid_to is None,
    {
        Transaction { facts, valid_from: None, valid_to: None }
    }
}

/// A point-in-time selector for transaction-time travel queries.
#[derive(Debug, Clone, Copy, PartialEq, Eq, Structural)]
pub enum AsOf {
    /// Select facts whose `tx_count` is ≤ n (monotonic batch counter).
    Counter(u64),
    /// Select facts whose `tx_id` (wall-clock millis since epoch) is ≤ t.
    Timestamp(i64),
}

/// A point-in-time selector for valid-time travel queries.
#[derive(Debug, Clone, Copy, PartialEq, Eq, Structural)]
pub enum ValidAt {
    /// Return facts where `valid_from <= ts < valid_to`.
    Timestamp(i64),
    /// Return all facts regardless of valid time (no valid-time filter).
    AnyValidTime,
}

/// A Datalog command (top-level form)
#[derive(Debug, PartialEq)]
pub enum DatalogCommand {
    /// Execute a query
    Query(DatalogQuery),
    /// Define a rule
    Rule(Rule),
    /// Transact facts
    Transact(Transaction),
    /// Retract facts
    Retract(Transaction),
}


/// The mathematical model of a [`FindSpec`].
pub enum FindSpecV {
    Variable(Seq<char>),
    Aggregate { func: AggFunc, var: Seq<char> },
    Window(WindowSpecV),
}

impl View for FindSpec {
    type V = FindSpecV;

    open spec fn view(&self) -> FindSpecV {
        match self {
            FindSpec::Variable(v) => FindSpecV::Variable(v@),
            FindSpec::Aggregate { func, var } => FindSpecV::Aggregate { func: *func, var: var@ },
            FindSpec::Window(w) => FindSpecV::Window(w@),
        }
    }
}

/// The models of a list of find specs.
pub open spec fn find_specs_view(s: Seq<FindSpec>) -> Seq<FindSpecV> {
    s.map_values(|f: FindSpec| f@)
}

/// The mathematical model of a [`DatalogQuery`].
pub struct DatalogQueryV {
    pub find: Seq<FindSpecV>,
    pub where_clauses: Seq<ClauseV>,
    pub as_of: Option<AsOf>,
    pub valid_at: Option<ValidAt>,
    pub with_vars: Seq<Seq<char>>,
}

impl View for DatalogQuery {
    type V = DatalogQueryV;

    open spec fn view(&self) -> DatalogQueryV {
        DatalogQueryV {
            find: find_specs_view(self.find@),
            where_clauses: clause_seq_view(self.where_clauses@),
            as_of: self.as_of,
            valid_at: self.valid_at,
            with_vars: self.with_vars@.map_values(|v: String| v@),
        }
    }
}

/// The mathematical model of a [`Transaction`].
pub struct TransactionV {
    pub facts: Seq<PatternV>,
    pub valid_from: Option<i64>,
    pub valid_to: Option<i64>,
}

impl View for Transaction {
    type V = TransactionV;

    open spec fn view(&self) -> TransactionV {
        TransactionV { facts: patterns_view(self.facts@), valid_from: self.valid_from, valid_to: self.valid_to }
    }
}

/// The mathematical model of a [`DatalogCommand`].
pub enum DatalogCommandV {
    Query(DatalogQueryV),
    Rule(RuleV),
    Transact(TransactionV),
    Retract(TransactionV),
}

impl View for DatalogCommand {
    type V = DatalogCommandV;

    open spec fn view(&self) -> DatalogCommandV {
        match self {
            DatalogCommand::Query(q) => DatalogCommandV::Query(q@),
            DatalogCommand::Rule(r) => DatalogCommandV::Rule(r@),
            DatalogCommand::Transact(t) => DatalogCommandV::Transact(t@),
            DatalogCommand::Retract(t) => DatalogCommandV::Retract(t@),
        }
    }
}

} // verus!
