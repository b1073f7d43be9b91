//! Pattern matching of Datalog patterns against facts, and the joins of
//! several patterns under variable unification.
use vstd::prelude::*;
use crate::graph::types::{Fact, Value, ValueV, value_eq};
use crate::graph::storage::{FactStorage, net_asserted};
use crate::ids::{EntityId, spec_uuid_parse, spec_uuid_text, spec_uuid_v5_oid, uuid_parse, uuid_text, uuid_v5_oid};
use crate::query::datalog::bindings::{Bindings, bindings_view};
use crate::query::datalog::optimizer::IndexHint;
use crate::query::datalog::types::{EdnV, EdnValue, Pattern, PatternV, edn_is_var, edn_pairs_view, edn_seq_view, is_var_name, patterns_view};
use crate::text::{hex_char, i64_to_string, int_text, str_chars, str_is, string_from_chars, strip_leading, trim_start_char, concat2};

verus! {

/// A binding's model.
pub type BindingV = Map<Seq<char>, ValueV>;

/// What a fact says: its entity, attribute and value.
pub type Triple = (u128, Seq<char>, ValueV);

/// The entity, attribute and value of a fact.
pub open spec fn fact_triple(f: Fact) -> Triple {
    (f.entity, f.attribute@, f.value@)
}

/// The entity, attribute and value of each fact, in order.
pub open spec fn fact_triples(fs: Seq<Fact>) -> Seq<Triple> {
    fs.map_values(|f: Fact| fact_triple(f))
}

/// How a character is written inside a quoted string of the debug text:
/// quote, backslash, newline, carriage return, tab and NUL by their escapes,
/// the other ASCII control characters as `\u{..}` in hexadecimal, any other
/// character as itself.
pub open spec fn escaped_char(c: char) -> Seq<char> {
    if c == '"' {
        seq!['\\', '"']
    } else if c == '\\' {
        seq!['\\', '\\']
    } else if c == '\n' {
        seq!['\\', 'n']
    } else if c == '\r' {
        seq!['\\', 'r']
    } else if c == '\t' {
        seq!['\\', 't']
    } else if c == '\0' {
        seq!['\\', '0']
    } else if (c as u32) < 16 {
        seq!['\\', 'u', '{', hex_char((c as u32) as nat), '}']
    } else if (c as u32) < 32 || (c as u32) == 127 {
        seq!['\\', 'u', '{', hex_char(((c as u32) / 16) as nat), hex_char(((c as u32) % 16) as nat), '}']
    } else {
        seq![c]
    }
}

/// The characters of `s`, each escaped.
pub open spec fn escaped(s: Seq<char>) -> Seq<char>
    decreases s.len(),
{
    if s.len() == 0 {
        seq![]
    } else {
        escaped(s.drop_last()) + escaped_char(s.last())
    }
}

/// A string in double quotes, escaped.
pub open spec fn quoted(s: Seq<char>) -> Seq<char> {
    seq!['"'] + escaped(s) + seq!['"']
}

/// The debug text of an EDN value, as error messages show it: the variant's
/// name with its contents in brackets, strings quoted, vectors and lists as
/// `[a, b]`, maps as `Map([(k, v), ..])`, a UUID in its hyphenated form and
/// a float as written.
pub open spec fn edn_debug_text(e: EdnV) -> Seq<char>
    decreases e,
{
    match e {
        EdnV::Keyword(k) => "Keyword("@ + quoted(k) + ")"@,
        EdnV::Symbol(k) => "Symbol("@ + quoted(k) + ")"@,
        EdnV::String(k) => "String("@ + quoted(k) + ")"@,
        EdnV::Integer(i) => "Integer("@ + int_text(i as int) + ")"@,
        EdnV::Float(t) => "Float("@ + t + ")"@,
        EdnV::Boolean(b) => if b {
            "Boolean(true)"@
        } else {
            "Boolean(false)"@
        },
        EdnV::Uuid(u) => "Uuid("@ + spec_uuid_text(u) + ")"@,
        EdnV::Vector(items) => "Vector(["@ + items_debug_text(items) + "])"@,
        EdnV::List(items) => "List(["@ + items_debug_text(items) + "])"@,
        EdnV::Mapping(ps) => "Map(["@ + pairs_debug_text(ps) + "])"@,
        EdnV::Nil => "Nil"@,
    }
}

/// The debug texts of the items, separated by `, `.
pub open spec fn items_debug_text(s: Seq<EdnV>) -> Seq<char>
    decreases s,
{
    if s.len() == 0 {
        seq![]
    } else if s.len() == 1 {
        edn_debug_text(s[0])
    } else {
        items_debug_text(s.drop_last()) + ", "@ + edn_debug_text(s[s.len() - 1])
    }
}

/// The debug texts of the pairs, each as `(k, v)`, separated by `, `.
pub open spec fn pairs_debug_text(s: Seq<(EdnV, EdnV)>) -> Seq<char>
    decreases s,
{
    if s.len() == 0 {
        seq![]
    } else {
        let last = "("@ + edn_debug_text(s[s.len() - 1].0) + ", "@ + edn_debug_text(s[s.len() - 1].1) + ")"@;
        if s.len() == 1 {
            last
        } else {
            pairs_debug_text(s.drop_last()) + ", "@ + last
        }
    }
}

/// Appends the characters of `s`.
fn append_str(out: &mut Vec<char>, s: &str)
    ensures
        final(out)@ == old(out)@ + s@,
{
    let cs = str_chars(s);
    let ghost start = out@;
    let mut i: usize = 0;
    while i < cs.len()
        invariant
            i <= cs.len(),
            cs@ == s@,
            out@ == start + cs@.subrange(0, i as int),
        decreases cs.len() - i,
    {
        out.push(cs[i]);
        i = i + 1;
        assert(out@ =~= start + cs@.subrange(0, i as int));
    }
    assert(cs@.subrange(0, cs.len() as int) =~= cs@);
}

fn hex_digit(d: u32) -> (c: char)
    requires
        d < 16,
    ensures
        c == hex_char(d as nat),
{
    if d == 0 { '0' } else if d == 1 { '1' } else if d == 2 { '2' } else if d == 3 { '3' }
    else if d == 4 { '4' } else if d == 5 { '5' } else if d == 6 { '6' } else if d == 7 { '7' }
    else if d == 8 { '8' } else if d == 9 { '9' } else if d == 10 { 'a' } else if d == 11 { 'b' }
    else if d == 12 { 'c' } else if d == 13 { 'd' } else if d == 14 { 'e' } else { 'f' }
}

/// Appends a string in double quotes, escaped.
fn append_quoted(out: &mut Vec<char>, s: &str)
    ensures
        final(out)@ == old(out)@ + quoted(s@),
{
    let cs = str_chars(s);
    let ghost start = out@;
    out.push('"');
    let mut i: usize = 0;
    assert(cs@.subrange(0, 0) =~= Seq::<char>::empty());
    while i < cs.len()
        invariant
            i <= cs.len(),
            cs@ == s@,
            out@ == start + seq!['"'] + escaped(cs@.subrange(0, i as int)),
        decreases cs.len() - i,
    {
        let c = cs[i];
        let ghost before = out@;
        let n = c as u32;
        if c == '"' {
            out.push('\\');
            out.push('"');
        } else if c == '\\' {
            out.push('\\');
            out.push('\\');
        } else if c == '\n' {
            out.push('\\');
            out.push('n');
        } else if c == '\r' {
            out.push('\\');
            out.push('r');
        } else if c == '\t' {
            out.push('\\');
            out.push('t');
        } else if c == '\0' {
            out.push('\\');
            out.push('0');
        } else if n < 16 {
            out.push('\\');
            out.push('u');
            out.push('{');
            out.push(hex_digit(n));
            out.push('}');
        } else if n < 32 || n == 127 {
            out.push('\\');
            out.push('u');
            out.push('{');
            out.push(hex_digit(n / 16));
            out.push(hex_digit(n % 16));
            out.push('}');
        } else {
            out.push(c);
        }
        assert(out@ =~= before + escaped_char(c));
        assert(cs@.subrange(0, i + 1).drop_last() =~= cs@.subrange(0, i as int));
        i = i + 1;
    }
    assert(cs@.subrange(0, cs.len() as int) =~= cs@);
    out.push('"');
    assert(out@ =~= start + quoted(s@));
}

/// Appends the debug text of an EDN value.
fn append_edn_debug(e: &EdnValue, out: &mut Vec<char>)
    ensures
        final(out)@ == old(out)@ + edn_debug_text(e@),
    decreases e,
{
    let ghost start = out@;
    match e {
        EdnValue::Keyword(k) => {
            append_str(out, "Keyword(");
            append_quoted(out, k.as_str());
            append_str(out, ")");
        },
        EdnValue::Symbol(k) => {
            append_str(out, "Symbol(");
            append_quoted(out, k.as_str());
            append_str(out, ")");
        },
        EdnValue::String(k) => {
            append_str(out, "String(");
            append_quoted(out, k.as_str());
            append_str(out, ")");
        },
        EdnValue::Integer(i) => {
            append_str(out, "Integer(");
            let t = i64_to_string(*i);
            append_str(out, t.as_str());
            append_str(out, ")");
        },
        EdnValue::Float(t) => {
            append_str(out, "Float(");
            append_str(out, t.as_str());
            append_str(out, ")");
        },
        EdnValue::Boolean(b) => {
            if *b {
                append_str(out, "Boolean(true)");
            } else {
                append_str(out, "Boolean(false)");
            }
        },
        EdnValue::Uuid(u) => {
            append_str(out, "Uuid(");
            let t = uuid_text(*u);
            append_str(out, t.as_str());
            append_str(out, ")");
        },
        EdnValue::Vector(items) => {
            append_str(out, "Vector([");
            append_items_debug(items, out);
            append_str(out, "])");
        },
        EdnValue::List(items) => {
            append_str(out, "List([");
            append_items_debug(items, out);
            append_str(out, "])");
        },
        EdnValue::Mapping(ps) => {
            append_str(out, "Map([");
            append_pairs_debug(ps, out);
            append_str(out, "])");
        },
        EdnValue::Nil => {
            append_str(out, "Nil");
        },
    }
    assert(out@ =~= start + edn_debug_text(e@));
}

/// Appends the debug texts of the items, separated by `, `.
fn append_items_debug(items: &Vec<EdnValue>, out: &mut Vec<char>)
    ensures
        final(out)@ == old(out)@ + items_debug_text(edn_seq_view(items@)),
    decreases items,
{
    let ghost start = out@;
    let ghost v = edn_seq_view(items@);
    let mut i: usize = 0;
    assert(v.subrange(0, 0) =~= Seq::<EdnV>::empty());
    while i < items.len()
        invariant
            i <= items.len(),
            v == edn_seq_view(items@),
            v.len() == items.len(),
            out@ == start + items_debug_text(v.subrange(0, i as int)),
        decreases items.len() - i,
    {
        proof {
            broadcast use vstd::std_specs::vec::axiom_vec_index_decreases;
            assert(decreases_to!(*items => items[i as int]));
        }
        if i > 0 {
            append_str(out, ", ");
        }
        append_edn_debug(&items[i], out);
        proof {
            let pre = v.subrange(0, i + 1);
            assert(pre.drop_last() =~= v.subrange(0, i as int));
            assert(pre[pre.len() - 1] == items@[i as int]@);
            if i == 0 {
                assert(pre[0] == items@[0]@);
            }
        }
        i = i + 1;
    }
    assert(v.subrange(0, items.len() as int) =~= v);
}

/// Appends the debug texts of the pairs, each as `(k, v)`, separated by `, `.
fn append_pairs_debug(ps: &Vec<(EdnValue, EdnValue)>, out: &mut Vec<char>)
    ensures
        final(out)@ == old(out)@ + pairs_debug_text(edn_pairs_view(ps@)),
    decreases ps,
{
    let ghost start = out@;
    let ghost v = edn_pairs_view(ps@);
    let mut i: usize = 0;
    assert(v.subrange(0, 0) =~= Seq::<(EdnV, EdnV)>::empty());
    while i < ps.len()
        invariant
            i <= ps.len(),
            v == edn_pairs_view(ps@),
            v.len() == ps.len(),
            out@ == start + pairs_debug_text(v.subrange(0, i as int)),
        decreases ps.len() - i,
    {
        proof {
            broadcast use vstd::std_specs::vec::axiom_vec_index_decreases;
            assert(decreases_to!(*ps => ps[i as int]));
            assert(decreases_to!(*ps => ps[i as int].0));
            assert(decreases_to!(*ps => ps[i as int].1));
        }
        let ghost before = out@;
        if i > 0 {
            append_str(out, ", ");
        }
        let ghost mid = out@;
        append_str(out, "(");
        append_edn_debug(&ps[i].0, out);
        append_str(out, ", ");
        append_edn_debug(&ps[i].1, out);
        append_str(out, ")");
        proof {
            let pre = v.subrange(0, i + 1);
            assert(pre.drop_last() =~= v.subrange(0, i as int));
            assert(pre[pre.len() - 1] == (ps@[i as int].0@, ps@[i as int].1@));
            let last = "("@ + edn_debug_text(ps@[i as int].0@) + ", "@ + edn_debug_text(ps@[i as int].1@) + ")"@;
            assert(out@ =~= mid + last);
            if i == 0 {
                assert(out@ =~= start + pairs_debug_text(pre));
            } else {
                assert(out@ =~= start + pairs_debug_text(pre));
            }
        }
        i = i + 1;
    }
    assert(v.subrange(0, ps.len() as int) =~= v);
}

/// The debug text of an EDN value (see [`edn_debug_text`]).
pub fn edn_debug(e: &EdnValue) -> (r: String)
    ensures
        r@ == edn_debug_text(e@),
{
    let mut out: Vec<char> = Vec::new();
    append_edn_debug(e, &mut out);
    assert(out@ =~= edn_debug_text(e@));
    string_from_chars(out.as_slice())
}

/// The entity a keyword denotes: the UUID its text (without leading colons)
/// spells, or else the name-based (v5, OID namespace) UUID of the keyword.
pub open spec fn keyword_entity(k: Seq<char>) -> u128 {
    match spec_uuid_parse(strip_leading(k, ':')) {
        Some(u) => u,
        None => spec_uuid_v5_oid(k),
    }
}

/// The entity an EDN value denotes, if it is a keyword or a UUID.
pub open spec fn spec_entity_id(e: EdnV) -> Option<u128> {
    match e {
        EdnV::Keyword(k) => Some(keyword_entity(k)),
        EdnV::Uuid(u) => Some(u),
        _ => None,
    }
}

/// The stored value an EDN literal denotes, if it is one.
pub open spec fn spec_edn_to_value(e: EdnV) -> Option<ValueV> {
    match e {
        EdnV::String(s) => Some(ValueV::String(s)),
        EdnV::Integer(i) => Some(ValueV::Integer(i)),
        EdnV::Float(f) => Some(ValueV::Float(f)),
        EdnV::Boolean(b) => Some(ValueV::Boolean(b)),
        EdnV::Keyword(k) => Some(ValueV::Keyword(k)),
        EdnV::Uuid(u) => Some(ValueV::Ref(u)),
        EdnV::Nil => Some(ValueV::Null),
        _ => None,
    }
}

/// The message of the error for an EDN value that is not a stored value.
pub open spec fn edn_to_value_error(e: EdnV) -> Seq<char> {
    if edn_is_var(e) {
        "Cannot convert unbound variable "@ + e->Symbol_0 + " to value"@
    } else {
        "Cannot convert "@ + edn_debug_text(e) + " to Value"@
    }
}

/// Convert EdnValue to Value for storage
pub fn edn_to_value(edn: &EdnValue) -> (r: Result<Value, String>)
    ensures
        match r {
            Ok(v) => spec_edn_to_value(edn@) == Some(v@),
            Err(m) => spec_edn_to_value(edn@) is None && m@ == edn_to_value_error(edn@),
        },
{
    match edn {
        EdnValue::String(s) => Ok(Value::String(s.clone())),
        EdnValue::Integer(i) => Ok(Value::Integer(*i)),
        EdnValue::Float(f) => Ok(Value::Float(f.clone())),
        EdnValue::Boolean(b) => Ok(Value::Boolean(*b)),
        EdnValue::Keyword(k) => Ok(Value::Keyword(k.clone())),
        EdnValue::Uuid(u) => Ok(Value::Ref(*u)),
        EdnValue::Nil => Ok(Value::Null),
        _ => {
            if edn.is_variable() {
                if let EdnValue::Symbol(s) = edn {
                    let mut m = concat2("Cannot convert unbound variable ", s.as_str());
                    m.append(" to value");
                    return Err(m);
                }
            }
            let d = edn_debug(edn);
            let mut m = concat2("Cannot convert ", d.as_str());
            m.append(" to Value");
            Err(m)
        },
    }
}

/// The entity a keyword denotes (see [`keyword_entity`]).
pub fn keyword_to_entity(k: &str) -> (r: EntityId)
    ensures
        r == keyword_entity(k@),
{
    let stripped = trim_start_char(k, ':');
    match uuid_parse(stripped.as_str()) {
        Some(u) => u,
        None => uuid_v5_oid(k),
    }
}

/// Convert EdnValue to EntityId (must be a keyword or UUID)
pub fn edn_to_entity_id(edn: &EdnValue) -> (r: Result<EntityId, String>)
    ensures
        match r {
            Ok(id) => spec_entity_id(edn@) == Some(id),
            Err(m) => spec_entity_id(edn@) is None
                && m@ == "Expected keyword or UUID for entity, got "@ + edn_debug_text(edn@),
        },
{
    match edn {
        EdnValue::Keyword(k) => Ok(keyword_to_entity(k.as_str())),
        EdnValue::Uuid(u) => Ok(*u),
        _ => {
            let d = edn_debug(edn);
            Err(concat2("Expected keyword or UUID for entity, got ", d.as_str()))
        },
    }
}

/// Whether a symbol is a wildcard that matches without binding: `_` or `?_…`.
pub open spec fn is_wildcard(s: Seq<char>) -> bool {
    s == "_"@ || (s.len() >= 2 && s[0] == '?' && s[1] == '_')
}

/// Whether a pattern constant matches a fact value.
pub open spec fn constant_matches(c: EdnV, v: ValueV) -> bool {
    match c {
        EdnV::Keyword(k) => match v {
            ValueV::Keyword(fk) => k == fk,
            ValueV::Ref(id) => keyword_entity(k) == id,
            _ => false,
        },
        EdnV::String(s) => v == ValueV::String(s),
        EdnV::Integer(i) => v == ValueV::Integer(i),
        EdnV::Float(f) => v == ValueV::Float(f),
        EdnV::Boolean(b) => v == ValueV::Boolean(b),
        EdnV::Uuid(u) => match v {
            ValueV::Ref(id) => u == id,
            ValueV::Keyword(k) => keyword_entity(k) == u,
            _ => false,
        },
        EdnV::Nil => v == ValueV::Null,
        _ => false,
    }
}

/// Matching one pattern component against a fact value under bindings `b`:
/// a wildcard matches anything; a variable binds (or must equal its binding);
/// a constant must match. `None` when it does not match.
pub open spec fn match_component(c: EdnV, v: ValueV, b: BindingV) -> Option<BindingV> {
    match c {
        EdnV::Symbol(s) => if is_wildcard(s) {
            Some(b)
        } else if is_var_name(s) {
            if b.contains_key(s) {
                if b[s] == v { Some(b) } else { None }
            } else {
                Some(b.insert(s, v))
            }
        } else {
            None
        },
        _ => if constant_matches(c, v) { Some(b) } else { None },
    }
}

/// Matching a pattern against a fact, entity then attribute then value,
/// starting from bindings `b`.
pub open spec fn match_fact(p: PatternV, f: Triple, b: BindingV) -> Option<BindingV> {
    match match_component(p.entity, ValueV::Ref(f.0), b) {
        None => None,
        Some(b1) => match match_component(p.attribute, ValueV::Keyword(f.1), b1) {
            None => None,
            Some(b2) => match_component(p.value, f.2, b2),
        },
    }
}

/// The EDN literal for a stored value (as used to resolve bound variables).
pub open spec fn value_edn(v: ValueV) -> EdnV {
    match v {
        ValueV::String(s) => EdnV::String(s),
        ValueV::Integer(i) => EdnV::Integer(i),
        ValueV::Float(f) => EdnV::Float(f),
        ValueV::Boolean(b) => EdnV::Boolean(b),
        ValueV::Ref(u) => EdnV::Uuid(u),
        ValueV::Keyword(k) => EdnV::Keyword(k),
        ValueV::Null => EdnV::Nil,
    }
}

/// A pattern component with a bound variable replaced by its value's literal.
pub open spec fn resolve_component(c: EdnV, b: BindingV) -> EdnV {
    if edn_is_var(c) && b.contains_key(c->Symbol_0) {
        value_edn(b[c->Symbol_0])
    } else {
        c
    }
}

/// A pattern with its bound variables replaced by their values' literals.
pub open spec fn resolve_pattern(p: PatternV, b: BindingV) -> PatternV {
    PatternV {
        entity: resolve_component(p.entity, b),
        attribute: resolve_component(p.attribute, b),
        value: resolve_component(p.value, b),
        valid_from: p.valid_from,
        valid_to: p.valid_to,
    }
}

/// Whether the new bindings `m` agree with `b` on every variable both bind.
pub open spec fn consistent(m: BindingV, b: BindingV) -> bool {
    forall|k: Seq<char>| #[trigger] m.contains_key(k) && b.contains_key(k) ==> m[k] == b[k]
}

/// Extending bindings `b` by one fact: the pattern is resolved under `b`,
/// matched against the fact from scratch, and the new bindings (if they
/// agree with `b`) are added.
pub open spec fn extend_fact(p: PatternV, f: Triple, b: BindingV) -> Option<BindingV> {
    match match_fact(resolve_pattern(p, b), f, Map::empty()) {
        Some(m) => if consistent(m, b) { Some(b.union_prefer_right(m)) } else { None },
        None => None,
    }
}

/// All extensions of `b` by the facts, in fact order.
pub open spec fn extend_all(p: PatternV, facts: Seq<Triple>, b: BindingV) -> Seq<BindingV>
    decreases facts.len(),
{
    if facts.len() == 0 {
        Seq::empty()
    } else {
        let prev = extend_all(p, facts.drop_last(), b);
        match extend_fact(p, facts.last(), b) {
            Some(x) => prev.push(x),
            None => prev,
        }
    }
}

/// The join of a sequence of bindings with one pattern: the extensions of
/// each binding, in binding order.
pub open spec fn join_all(bs: Seq<BindingV>, p: PatternV, facts: Seq<Triple>) -> Seq<BindingV>
    decreases bs.len(),
{
    if bs.len() == 0 {
        Seq::empty()
    } else {
        join_all(bs.drop_last(), p, facts) + extend_all(p, facts, bs.last())
    }
}

/// The joins of the seed bindings with each pattern in turn.
pub open spec fn join_fold(ps: Seq<PatternV>, facts: Seq<Triple>, seed: Seq<BindingV>) -> Seq<BindingV>
    decreases ps.len(),
{
    if ps.len() == 0 {
        seed
    } else {
        join_all(join_fold(ps.drop_last(), facts, seed), ps.last(), facts)
    }
}

/// The bindings of the facts that one pattern matches, in fact order.
pub open spec fn matches_in(facts: Seq<Triple>, p: PatternV) -> Seq<BindingV>
    decreases facts.len(),
{
    if facts.len() == 0 {
        Seq::empty()
    } else {
        let prev = matches_in(facts.drop_last(), p);
        match match_fact(p, facts.last(), Map::empty()) {
            Some(m) => prev.push(m),
            None => prev,
        }
    }
}


/// Appends all of `more` to `out`.
pub fn append_bindings(out: &mut Vec<Bindings>, more: Vec<Bindings>)
    ensures
        bindings_view(final(out)@) == bindings_view(old(out)@) + bindings_view(more@),
{
    let mut more = more;
    let ghost start = out@;
    let ghost all = more@;
    let n = more.len();
    let mut k: usize = 0;
    while k < n
        invariant
            n == all.len(),
            k <= n,
            more@ == all.subrange(k as int, n as int),
            out@ == start + all.subrange(0, k as int),
        decreases n - k,
    {
        let x = more.remove(0);
        out.push(x);
        k = k + 1;
        assert(out@ =~= start + all.subrange(0, k as int));
        assert(more@ =~= all.subrange(k as int, n as int));
    }
    assert(all.subrange(0, n as int) =~= all);
    assert(bindings_view(out@) =~= bindings_view(start) + bindings_view(all));
}

/// Convert a Value to the EDN literal used to resolve a bound variable.
pub fn value_to_edn(value: &Value) -> (r: EdnValue)
    ensures
        r@ == value_edn(value@),
{
    match value {
        Value::String(s) => EdnValue::String(s.clone()),
        Value::Integer(i) => EdnValue::Integer(*i),
        Value::Float(f) => EdnValue::Float(f.clone()),
        Value::Boolean(b) => EdnValue::Boolean(*b),
        Value::Ref(entity_id) => EdnValue::Uuid(*entity_id),
        Value::Keyword(k) => EdnValue::Keyword(k.clone()),
        Value::Null => EdnValue::Nil,
    }
}

/// Pattern matcher that finds facts matching a pattern and produces bindings.
pub struct PatternMatcher {
    facts: Vec<Fact>,
    /// The `:db/valid-at` value for this query context (Value::Null when not set).
    pub valid_at_value: Value,
}

impl PatternMatcher {
    /// The facts this matcher matches against.
    pub closed spec fn facts(&self) -> Seq<Fact> {
        self.facts@
    }

    /// The `:db/valid-at` value of this matcher.
    pub closed spec fn valid_at(&self) -> Value {
        self.valid_at_value
    }

    /// A matcher over the facts that the storage currently asserts.
    pub fn new(storage: FactStorage) -> (r: Self)
        ensures
            r.facts() == net_asserted(storage.records()),
            r.valid_at() == Value::Null,
    {
        PatternMatcher { facts: storage.get_asserted_facts(), valid_at_value: Value::Null }
    }

    /// A matcher over the given (already filtered) facts.
    pub fn from_slice(facts: Vec<Fact>) -> (r: Self)
        ensures
            r.facts() == facts@,
            r.valid_at() == Value::Null,
    {
        PatternMatcher { facts, valid_at_value: Value::Null }
    }

    /// A matcher with an explicit `:db/valid-at` binding value.
    pub fn from_slice_with_valid_at(facts: Vec<Fact>, valid_at: Value) -> (r: Self)
        ensures
            r.facts() == facts@,
            r.valid_at() == valid_at,
    {
        PatternMatcher { facts, valid_at_value: valid_at }
    }

    /// The facts this matcher matches against.
    pub fn get_facts(&self) -> (r: &Vec<Fact>)
        ensures
            r@ == self.facts(),
    {
        &self.facts
    }

    /// Match a single pattern component against a fact value, updating bindings.
    fn match_component(&self, c: &EdnValue, v: &Value, bindings: &mut Bindings) -> (r: bool)
        ensures
            r == match_component(c@, v@, old(bindings)@) is Some,
            r ==> final(bindings)@ == match_component(c@, v@, old(bindings)@)->0,
    {
        match c {
            EdnValue::Symbol(var) => {
                if str_is(var.as_str(), "_") {
                    return true;
                }
                let cs = str_chars(var.as_str());
                if cs.len() >= 2 && cs[0] == '?' && cs[1] == '_' {
                    return true;
                }
                if cs.len() >= 1 && cs[0] == '?' {
                    match bindings.get(var.as_str()) {
                        Some(existing) => value_eq(existing, v),
                        None => {
                            bindings.insert(var.clone(), v.clone());
                            true
                        },
                    }
                } else {
                    false
                }
            },
            EdnValue::Keyword(k) => match v {
                Value::Keyword(fk) => *k == *fk,
                Value::Ref(id) => keyword_to_entity(k.as_str()) == *id,
                _ => false,
            },
            EdnValue::String(s) => match v {
                Value::String(fs) => *s == *fs,
                _ => false,
            },
            EdnValue::Integer(i) => match v {
                Value::Integer(fi) => *i == *fi,
                _ => false,
            },
            EdnValue::Float(f) => match v {
                Value::Float(ff) => *f == *ff,
                _ => false,
            },
            EdnValue::Boolean(b) => match v {
                Value::Boolean(fb) => *b == *fb,
                _ => false,
            },
            EdnValue::Uuid(u) => match v {
                Value::Ref(id) => *u == *id,
                Value::Keyword(k) => keyword_to_entity(k.as_str()) == *u,
                _ => false,
            },
            EdnValue::Nil => match v {
                Value::Null => true,
                _ => false,
            },
            _ => false,
        }
    }

    /// Try to match a single fact against a pattern, from empty bindings.
    fn match_fact_against_pattern(&self, fact: &Fact, pattern: &Pattern) -> (r: Option<Bindings>)
        ensures
            match r {
                Some(b) => match_fact(pattern@, fact_triple(*fact), Map::empty()) == Some(b@),
                None => match_fact(pattern@, fact_triple(*fact), Map::empty()) is None,
            },
    {
        let mut bindings = Bindings::new();
        if !self.match_component(&pattern.entity, &Value::Ref(fact.entity), &mut bindings) {
            return None;
        }
        let attr = Value::Keyword(fact.attribute.clone());
        if !self.match_component(&pattern.attribute, &attr, &mut bindings) {
            return None;
        }
        if !self.match_component(&pattern.value, &fact.value, &mut bindings) {
            return None;
        }
        Some(bindings)
    }

    /// Match a single pattern against all facts. Returns one binding per
    /// matching fact, in fact order.
    pub fn match_pattern(&self, pattern: &Pattern) -> (r: Vec<Bindings>)
        ensures
            bindings_view(r@) == matches_in(fact_triples(self.facts()), pattern@),
    {
        let ghost ts = fact_triples(self.facts@);
        let mut results: Vec<Bindings> = Vec::new();
        let mut i: usize = 0;
        while i < self.facts.len()
            invariant
                i <= self.facts@.len(),
                ts == fact_triples(self.facts@),
                bindings_view(results@) == matches_in(ts.subrange(0, i as int), pattern@),
            decreases self.facts.len() - i,
        {
            proof {
                let pre = ts.subrange(0, i + 1);
                assert(pre.drop_last() =~= ts.subrange(0, i as int));
                assert(pre.last() == fact_triple(self.facts@[i as int]));
            }
            let ghost before = bindings_view(results@);
            if let Some(b) = self.match_fact_against_pattern(&self.facts[i], pattern) {
                results.push(b);
                assert(bindings_view(results@) =~= before.push(b@));
            }
            i = i + 1;
        }
        assert(ts.subrange(0, ts.len() as int) =~= ts);
        results
    }

    /// Apply bindings to a single pattern component: a bound variable is
    /// replaced by its value's literal.
    fn apply_binding_to_component(&self, component: &EdnValue, bindings: &Bindings) -> (r: EdnValue)
        ensures
            r@ == resolve_component(component@, bindings@),
    {
        if let EdnValue::Symbol(var) = component {
            if component.is_variable() {
                if let Some(value) = bindings.get(var.as_str()) {
                    return value_to_edn(value);
                }
            }
        }
        component.clone()
    }

    /// Apply existing bindings to a pattern, replacing bound variables with their values.
    fn apply_bindings_to_pattern(&self, pattern: &Pattern, bindings: &Bindings) -> (r: Pattern)
        ensures
            r@ == resolve_pattern(pattern@, bindings@),
    {
        Pattern {
            entity: self.apply_binding_to_component(&pattern.entity, bindings),
            attribute: self.apply_binding_to_component(&pattern.attribute, bindings),
            value: self.apply_binding_to_component(&pattern.value, bindings),
            valid_from: pattern.valid_from,
            valid_to: pattern.valid_to,
        }
    }

    /// Match a pattern given existing variable bindings: every extension of
    /// `existing` by a fact, in fact order.
    fn match_pattern_with_bindings(&self, pattern: &Pattern, existing: &Bindings) -> (r: Vec<Bindings>)
        ensures
            bindings_view(r@) == extend_all(pattern@, fact_triples(self.facts()), existing@),
    {
        let ghost ts = fact_triples(self.facts@);
        let resolved = self.apply_bindings_to_pattern(pattern, existing);
        let mut results: Vec<Bindings> = Vec::new();
        let mut i: usize = 0;
        while i < self.facts.len()
            invariant
                i <= self.facts@.len(),
                ts == fact_triples(self.facts@),
                resolved@ == resolve_pattern(pattern@, existing@),
                bindings_view(results@) == extend_all(pattern@, ts.subrange(0, i as int), existing@),
            decreases self.facts.len() - i,
        {
            proof {
                let pre = ts.subrange(0, i + 1);
                assert(pre.drop_last() =~= ts.subrange(0, i as int));
                assert(pre.last() == fact_triple(self.facts@[i as int]));
            }
            let ghost before = bindings_view(results@);
            if let Some(additional) = self.match_fact_against_pattern(&self.facts[i], &resolved) {
                if additional.agrees_with(existing) {
                    let mut nb = existing.clone();
                    nb.extend_with(&additional);
                    results.push(nb);
                    assert(bindings_view(results@) =~= before.push(existing@.union_prefer_right(additional@)));
                }
            }
            i = i + 1;
        }
        assert(ts.subrange(0, ts.len() as int) =~= ts);
        results
    }

    /// Join existing bindings with a new pattern: only extensions consistent
    /// with each existing binding are kept.
    fn join_with_pattern(&self, existing_bindings: Vec<Bindings>, pattern: &Pattern) -> (r: Vec<Bindings>)
        ensures
            bindings_view(r@) == join_all(bindings_view(existing_bindings@), pattern@, fact_triples(self.facts())),
    {
        let ghost bs = bindings_view(existing_bindings@);
        let mut results: Vec<Bindings> = Vec::new();
        let mut i: usize = 0;
        while i < existing_bindings.len()
            invariant
                i <= existing_bindings.len(),
                bs == bindings_view(existing_bindings@),
                bindings_view(results@) == join_all(bs.subrange(0, i as int), pattern@, fact_triples(self.facts())),
            decreases existing_bindings.len() - i,
        {
            proof {
                let pre = bs.subrange(0, i + 1);
                assert(pre.drop_last() =~= bs.subrange(0, i as int));
            }
            let more = self.match_pattern_with_bindings(pattern, &existing_bindings[i]);
            let ghost before = bindings_view(results@);
            append_bindings(&mut results, more);
            i = i + 1;
        }
        assert(bs.subrange(0, bs.len() as int) =~= bs);
        results
    }

    /// Match multiple patterns starting from existing seed bindings: each
    /// pattern in turn is joined with the bindings so far.
    pub fn match_patterns_seeded(&self, patterns: &[Pattern], seed: Vec<Bindings>) -> (r: Vec<Bindings>)
        ensures
            bindings_view(r@) == join_fold(patterns_view(patterns@), fact_triples(self.facts()), bindings_view(seed@)),
    {
        let ghost ps = patterns_view(patterns@);
        let ghost s0 = bindings_view(seed@);
        let mut results = seed;
        let mut i: usize = 0;
        while i < patterns.len()
            invariant
                i <= patterns.len(),
                ps == patterns_view(patterns@),
                bindings_view(results@) == join_fold(ps.subrange(0, i as int), fact_triples(self.facts()), s0),
            decreases patterns.len() - i,
        {
            proof {
                let pre = ps.subrange(0, i + 1);
                assert(pre.drop_last() =~= ps.subrange(0, i as int));
            }
            results = self.join_with_pattern(results, &patterns[i]);
            i = i + 1;
        }
        assert(ps.subrange(0, ps.len() as int) =~= ps);
        results
    }

    /// Match multiple patterns with variable unification: the bindings that
    /// satisfy all patterns simultaneously (starting from one empty binding).
    /// Match patterns that carry index hints: the hints only choose how
    /// facts are looked up, so the result is that of [`Self::match_patterns`]
    /// on the patterns alone.
    pub fn match_patterns_with_hints(&self, patterns: &[(Pattern, IndexHint)]) -> (r: Vec<Bindings>)
        ensures
            bindings_view(r@) == join_fold(
                patterns@.map_values(|x: (Pattern, IndexHint)| x.0@),
                fact_triples(self.facts()),
                seq![Map::empty()],
            ),
    {
        let ghost hv = patterns@.map_values(|x: (Pattern, IndexHint)| x.0@);
        let mut plain: Vec<Pattern> = Vec::new();
        let mut i: usize = 0;
        while i < patterns.len()
            invariant
                i <= patterns.len(),
                hv == patterns@.map_values(|x: (Pattern, IndexHint)| x.0@),
                patterns_view(plain@) == hv.subrange(0, i as int),
            decreases patterns.len() - i,
        {
            let ghost before = patterns_view(plain@);
            let p = patterns[i].0.clone();
            plain.push(p);
            assert(patterns_view(plain@) =~= before.push(p@));
            assert(hv.subrange(0, i + 1) =~= hv.subrange(0, i as int).push(hv[i as int]));
            i = i + 1;
        }
        assert(hv.subrange(0, patterns.len() as int) =~= hv);
        self.match_patterns(plain.as_slice())
    }

    pub fn match_patterns(&self, patterns: &[Pattern]) -> (r: Vec<Bindings>)
        ensures
            bindings_view(r@) == join_fold(patterns_view(patterns@), fact_triples(self.facts()), seq![Map::empty()]),
    {
        let mut seed: Vec<Bindings> = Vec::new();
        seed.push(Bindings::new());
        assert(bindings_view(seed@) =~= seq![Map::<Seq<char>, ValueV>::empty()]);
        self.match_patterns_seeded(patterns, seed)
    }
}

} // verus!

verus! {

/// The anonymous wildcard `_`, and any variable whose name starts with `?_`,
/// match every value and leave the bindings as they are.
pub proof fn lemma_wildcards_match_anything(v: ValueV, b: BindingV, s: Seq<char>)
    ensures
        match_component(EdnV::Symbol("_"@), v, b) == Some(b),
        s.len() >= 2 && s[0] == '?' && s[1] == '_' ==> match_component(EdnV::Symbol(s), v, b) == Some(b),
{
}

/// A variable (a symbol `?x`, not a wildcard) that is not bound yet matches
/// any value and binds it; one that is bound matches exactly its value and
/// leaves the bindings as they are. A symbol that is neither is no match.
pub proof fn lemma_variable_binding(s: Seq<char>, v: ValueV, b: BindingV)
    requires
        s.len() >= 1,
        s.len() >= 2 ==> s[1] != '_',
        s != "_"@,
    ensures
        s[0] == '?' && !b.contains_key(s) ==> match_component(EdnV::Symbol(s), v, b) == Some(b.insert(s, v)),
        s[0] == '?' && b.contains_key(s) ==> (match_component(EdnV::Symbol(s), v, b) is Some <==> b[s] == v),
        s[0] == '?' && b.contains_key(s) && b[s] == v ==> match_component(EdnV::Symbol(s), v, b) == Some(b),
        s[0] != '?' ==> match_component(EdnV::Symbol(s), v, b) is None,
{
}

/// A constant matches exactly the equal value and binds nothing: a string,
/// an integer or a boolean matches only itself, and `nil` only `Null`.
pub proof fn lemma_constants_match_equal(v: ValueV, b: BindingV, st: Seq<char>, i: i64, x: bool)
    ensures
        match_component(EdnV::String(st), v, b) == (if v == ValueV::String(st) { Some(b) } else { None }),
        match_component(EdnV::Integer(i), v, b) == (if v == ValueV::Integer(i) { Some(b) } else { None }),
        match_component(EdnV::Boolean(x), v, b) == (if v == ValueV::Boolean(x) { Some(b) } else { None }),
        match_component(EdnV::Nil, v, b) == (if v == ValueV::Null { Some(b) } else { None }),
{
}

/// A fact matches a pattern exactly when its entity, attribute and value
/// match the pattern's components in turn, each under the bindings the one
/// before left; so a pattern whose value is `_` matches every fact whose
/// entity and attribute match.
pub proof fn lemma_fact_wildcard_value(p: PatternV, f: Triple, b: BindingV)
    requires
        p.value == EdnV::Symbol("_"@),
    ensures
        match_fact(p, f, b) == match match_component(p.entity, ValueV::Ref(f.0), b) {
            None => None,
            Some(b1) => match_component(p.attribute, ValueV::Keyword(f.1), b1),
        },
{
    match match_component(p.entity, ValueV::Ref(f.0), b) {
        None => {},
        Some(b1) => match match_component(p.attribute, ValueV::Keyword(f.1), b1) {
            None => {},
            Some(b2) => lemma_wildcards_match_anything(f.2, b2, seq![]),
        },
    }
}

} // verus!
