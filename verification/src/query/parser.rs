//! Parser for the property-graph command language: `CREATE NODE`,
//! `CREATE EDGE`, `MATCH`, `SHOW NODES`, `SHOW EDGES`, `HELP` and `EXIT`.
use vstd::prelude::*;
use crate::graph::types::{Property, PropertyValue, PropertyValueV, strings_view};
use crate::text::{
    is_prefix, trim, trim_chars, trim_c, trim_c_chars, trim_start_c, trim_start_c_chars, trim_end_c,
    trim_end_c_chars, find_char, find_char_exec, find_seq, find_seq_exec, split_seq, split_seq_exec,
    chars_view, remove_char, remove_char_exec, spec_parse_i64, parse_i64_chars, is_float_literal,
    is_float_literal_chars, spec_to_uppercase, to_uppercase, str_chars, string_from_chars, sub_slice,
    starts_with_chars, chars_eq, concat3, lemma_find_char, is_first_char,
};

verus! {

/// A command of the property-graph language.
#[derive(Debug, PartialEq)]
pub enum Query {
    CreateNode { labels: Vec<String>, properties: Property },
    CreateEdge { source_id: String, target_id: String, label: String, properties: Property },
    MatchNodes { label: Option<String>, property_filter: Option<(String, PropertyValue)> },
    MatchEdges { label: Option<String> },
    ShowNodes,
    ShowEdges,
    Help,
    Exit,
}

/// The mathematical model of a [`Query`].
pub enum QueryV {
    CreateNode { labels: Seq<Seq<char>>, properties: Map<Seq<char>, PropertyValueV> },
    CreateEdge {
        source_id: Seq<char>,
        target_id: Seq<char>,
        label: Seq<char>,
        properties: Map<Seq<char>, PropertyValueV>,
    },
    MatchNodes { label: Option<Seq<char>>, property_filter: Option<(Seq<char>, PropertyValueV)> },
    MatchEdges { label: Option<Seq<char>> },
    ShowNodes,
    ShowEdges,
    Help,
    Exit,
}

/// The model of an optional string.
pub open spec fn opt_view(o: Option<String>) -> Option<Seq<char>> {
    match o {
        Some(s) => Some(s@),
        None => None,
    }
}

impl View for Query {
    type V = QueryV;

    open spec fn view(&self) -> QueryV {
        match self {
            Query::CreateNode { labels, properties } => QueryV::CreateNode {
                labels: strings_view(labels@),
                properties: properties@,
            },
            Query::CreateEdge { source_id, target_id, label, properties } => QueryV::CreateEdge {
                source_id: source_id@,
                target_id: target_id@,
                label: label@,
                properties: properties@,
            },
            Query::MatchNodes { label, property_filter } => QueryV::MatchNodes {
                label: opt_view(*label),
                property_filter: match property_filter {
                    Some((k, v)) => Some((k@, v@)),
                    None => None,
                },
            },
            Query::MatchEdges { label } => QueryV::MatchEdges { label: opt_view(*label) },
            Query::ShowNodes => QueryV::ShowNodes,
            Query::ShowEdges => QueryV::ShowEdges,
            Query::Help => QueryV::Help,
            Query::Exit => QueryV::Exit,
        }
    }
}

/// The model of a parse result.
pub open spec fn result_view(r: Result<Query, String>) -> Result<QueryV, Seq<char>> {
    match r {
        Ok(q) => Ok(q@),
        Err(e) => Err(e@),
    }
}

/// `s` without the prefix `p`, if `s` starts with `p` (as `str::strip_prefix`).
pub open spec fn strip_prefix(s: Seq<char>, p: Seq<char>) -> Option<Seq<char>> {
    if is_prefix(p, s) {
        Some(s.subrange(p.len() as int, s.len() as int))
    } else {
        None
    }
}

/// `s` without the prefix `a`, or else without the prefix `b`.
pub open spec fn strip_either(s: Seq<char>, a: Seq<char>, b: Seq<char>) -> Option<Seq<char>> {
    match strip_prefix(s, a) {
        Some(r) => Some(r),
        None => strip_prefix(s, b),
    }
}

/// The part of `s` before the first `c` (all of `s` without one).
pub open spec fn before_char(s: Seq<char>, c: char) -> Seq<char> {
    match find_char(s, c) {
        Some(j) => s.subrange(0, j),
        None => s,
    }
}

/// The part of `s` before the first occurrence of `sep` (all of `s` without one).
pub open spec fn before_seq(s: Seq<char>, sep: Seq<char>) -> Seq<char> {
    match find_seq(s, sep) {
        Some(j) => s.subrange(0, j),
        None => s,
    }
}

/// The part of `s` after the first occurrence of `sep`, if any.
pub open spec fn after_seq(s: Seq<char>, sep: Seq<char>) -> Option<Seq<char>> {
    match find_seq(s, sep) {
        Some(j) => Some(s.subrange(j + sep.len(), s.len() as int)),
        None => None,
    }
}

/// The map built by inserting the pairs in order (a later pair overrides).
pub open spec fn pairs_map(ps: Seq<(Seq<char>, PropertyValueV)>) -> Map<Seq<char>, PropertyValueV>
    decreases ps.len(),
{
    if ps.len() == 0 {
        Map::empty()
    } else {
        pairs_map(ps.drop_last()).insert(ps.last().0, ps.last().1)
    }
}

/// The value that a property literal denotes: a quoted string, `true`,
/// `false`, `null`, a 64-bit integer or a floating-point number.
pub open spec fn spec_property_value(input: Seq<char>) -> Result<PropertyValueV, Seq<char>> {
    let t = trim(input);
    if t.len() > 0 && t[0] == '"' && t[t.len() - 1] == '"' {
        Ok(PropertyValueV::String(trim_c(t, '"')))
    } else if t == "true"@ {
        Ok(PropertyValueV::Boolean(true))
    } else if t == "false"@ {
        Ok(PropertyValueV::Boolean(false))
    } else if t == "null"@ {
        Ok(PropertyValueV::Null)
    } else {
        match spec_parse_i64(t) {
            Some(i) => Ok(PropertyValueV::Integer(i)),
            None => if is_float_literal(t) {
                Ok(PropertyValueV::Float(t))
            } else {
                Err("Cannot parse property value: '"@ + t + "'"@)
            },
        }
    }
}

/// The properties read from the comma-separated pieces from position `i`
/// on, added to `acc`; the first malformed piece is an error.
pub open spec fn props_from(
    pieces: Seq<Seq<char>>,
    i: int,
    acc: Map<Seq<char>, PropertyValueV>,
) -> Result<Map<Seq<char>, PropertyValueV>, Seq<char>>
    decreases pieces.len() - i,
{
    if i < 0 || i >= pieces.len() {
        Ok(acc)
    } else {
        let pair = trim(pieces[i]);
        if pair.len() == 0 {
            props_from(pieces, i + 1, acc)
        } else {
            match find_char(pair, ':') {
                None => Err("Invalid property format: '"@ + pair + "'"@),
                Some(k) => {
                    let key = trim_c(trim(pair.subrange(0, k)), '"');
                    match spec_property_value(trim(pair.subrange(k + 1, pair.len() as int))) {
                        Ok(v) => props_from(pieces, i + 1, acc.insert(key, v)),
                        Err(e) => Err(e),
                    }
                },
            }
        }
    }
}

/// The properties of a block `key: value, ...` (the braces removed).
pub open spec fn spec_properties(input: Seq<char>) -> Result<Map<Seq<char>, PropertyValueV>, Seq<char>> {
    if input.len() == 0 {
        Ok(Map::empty())
    } else {
        props_from(split_seq(input, seq![',']), 0, Map::empty())
    }
}

/// The non-blank pieces, each trimmed.
pub open spec fn nonblank_trimmed(pieces: Seq<Seq<char>>) -> Seq<Seq<char>>
    decreases pieces.len(),
{
    if pieces.len() == 0 {
        seq![]
    } else {
        let r = nonblank_trimmed(pieces.drop_last());
        if trim(pieces.last()).len() > 0 {
            r.push(trim(pieces.last()))
        } else {
            r
        }
    }
}

/// The labels of a pattern such as `(:Person:Employee)`.
pub open spec fn spec_labels(input: Seq<char>) -> Seq<Seq<char>> {
    let x = trim(trim_end_c(trim_start_c(trim(input), '('), ')'));
    if x.len() == 0 {
        seq![]
    } else {
        nonblank_trimmed(split_seq(x, seq![':']))
    }
}

/// The filter of a `WHERE key = value` clause (the keyword removed).
pub open spec fn spec_where(input: Seq<char>) -> Result<(Seq<char>, PropertyValueV), Seq<char>> {
    let t = trim(input);
    match find_char(t, '=') {
        None => Err("WHERE clause must use '=' operator"@),
        Some(k) => match spec_property_value(trim(t.subrange(k + 1, t.len() as int))) {
            Ok(v) => Ok((trim(t.subrange(0, k)), v)),
            Err(e) => Err(e),
        },
    }
}

/// `CREATE NODE (:Label1:Label2) {key: value, ...}`.
pub open spec fn spec_create_node(input: Seq<char>) -> Result<QueryV, Seq<char>> {
    let t = trim(input);
    match strip_either(t, "CREATE NODE"@, "create node"@) {
        None => Err("Invalid CREATE NODE syntax"@),
        Some(r0) => {
            let rest = trim(r0);
            match find_char(rest, '{') {
                Some(i) => {
                    let labels = spec_labels(trim(rest.subrange(0, i)));
                    match spec_properties(trim(trim_end_c(rest.subrange(i + 1, rest.len() as int), '}'))) {
                        Ok(p) => Ok(QueryV::CreateNode { labels, properties: p }),
                        Err(e) => Err(e),
                    }
                },
                None => Ok(QueryV::CreateNode { labels: spec_labels(rest), properties: Map::empty() }),
            }
        },
    }
}

/// The edge described by `(source)-[LABEL]->(target)` with the given properties.
pub open spec fn spec_edge_pattern(
    pattern: Seq<char>,
    props: Map<Seq<char>, PropertyValueV>,
) -> Result<QueryV, Seq<char>> {
    let arrow = seq!['-', '>'];
    match find_seq(pattern, arrow) {
        None => Err("Edge pattern must contain '->' (e.g., (source_id)-[LABEL]->(target_id))"@),
        Some(a) => {
            let tail = pattern.subrange(a + 2, pattern.len() as int);
            if find_seq(tail, arrow) is Some {
                Err("Invalid edge pattern"@)
            } else {
                let sp = trim(pattern.subrange(0, a));
                let tp = trim(tail);
                let mid = seq![')', '-', '['];
                let source_id = trim(before_seq(trim_end_c(trim_start_c(sp, '('), ')'), mid));
                match after_seq(sp, mid) {
                    None => Err("Invalid edge label"@),
                    Some(after) => {
                        let label = trim(trim_end_c(before_seq(after, mid), ']'));
                        let target_id = trim(trim_end_c(trim_start_c(tp, '('), ')'));
                        Ok(QueryV::CreateEdge { source_id, target_id, label, properties: props })
                    },
                }
            }
        },
    }
}

/// `CREATE EDGE (source)-[LABEL]->(target) {key: value, ...}`.
pub open spec fn spec_create_edge(input: Seq<char>) -> Result<QueryV, Seq<char>> {
    let t = trim(input);
    match strip_either(t, "CREATE EDGE"@, "create edge"@) {
        None => Err("Invalid CREATE EDGE syntax"@),
        Some(r0) => {
            let rest = trim(r0);
            match find_char(rest, '{') {
                Some(i) => match spec_properties(trim(trim_end_c(rest.subrange(i + 1, rest.len() as int), '}'))) {
                    Ok(p) => spec_edge_pattern(trim(rest.subrange(0, i)), p),
                    Err(e) => Err(e),
                },
                None => spec_edge_pattern(rest, Map::empty()),
            }
        },
    }
}

/// The optional `WHERE` part of a node match, given the text after the
/// node pattern.
pub open spec fn spec_match_where(label: Seq<char>, remaining: Seq<char>) -> Result<QueryV, Seq<char>> {
    let r = trim(remaining);
    if is_prefix("WHERE"@, spec_to_uppercase(r)) {
        match strip_either(r, "WHERE"@, "where"@) {
            None => Err("Invalid WHERE clause"@),
            Some(w) => match spec_where(trim(w)) {
                Ok(f) => Ok(QueryV::MatchNodes { label: Some(label), property_filter: Some(f) }),
                Err(e) => Err(e),
            },
        }
    } else {
        Ok(QueryV::MatchNodes { label: Some(label), property_filter: None })
    }
}

/// `MATCH (:Label) [WHERE key = value]` or `MATCH -[:LABEL]->`.
pub open spec fn spec_match(input: Seq<char>) -> Result<QueryV, Seq<char>> {
    let t = trim(input);
    match strip_either(t, "MATCH"@, "match"@) {
        None => Err("Invalid MATCH syntax"@),
        Some(r0) => {
            let rest = trim(r0);
            if rest.len() > 0 && rest[0] == '(' && find_char(rest, ')') is Some {
                let node_pattern = trim(before_char(trim_start_c(rest, '('), ')'));
                let k = find_char(rest, ')')->0;
                let remaining = remove_char(rest.subrange(k + 1, rest.len() as int), ')');
                match find_char(node_pattern, ':') {
                    Some(c) => spec_match_where(
                        trim(node_pattern.subrange(c + 1, node_pattern.len() as int)),
                        remaining,
                    ),
                    None => Ok(QueryV::MatchNodes { label: None, property_filter: None }),
                }
            } else if rest.len() > 0 && (rest[0] == '-' || rest[0] == '[') {
                match (find_char(rest, '['), find_char(rest, ']')) {
                    (Some(b), Some(_)) => {
                        let ls = trim(before_char(before_char(rest.subrange(b + 1, rest.len() as int), '['), ']'));
                        Ok(QueryV::MatchEdges { label: if ls.len() == 0 { None } else { Some(ls) } })
                    },
                    _ => Ok(QueryV::MatchEdges { label: None }),
                }
            } else {
                Err("Invalid MATCH pattern. Use (:Label) for nodes or -[:LABEL]-> for edges"@)
            }
        },
    }
}

/// The command that a trimmed, non-empty input denotes, given its
/// upper-cased form `upper`.
pub open spec fn spec_classify(input: Seq<char>, upper: Seq<char>) -> Result<QueryV, Seq<char>> {
    if upper == "EXIT"@ || upper == "QUIT"@ {
        Ok(QueryV::Exit)
    } else if upper == "HELP"@ {
        Ok(QueryV::Help)
    } else if is_prefix("SHOW NODES"@, upper) {
        Ok(QueryV::ShowNodes)
    } else if is_prefix("SHOW EDGES"@, upper) {
        Ok(QueryV::ShowEdges)
    } else if is_prefix("CREATE NODE"@, upper) {
        spec_create_node(input)
    } else if is_prefix("CREATE EDGE"@, upper) {
        spec_create_edge(input)
    } else if is_prefix("MATCH"@, upper) {
        spec_match(input)
    } else {
        Err("Unknown query type. Type HELP for available commands."@)
    }
}

/// The command that an input line denotes.
pub open spec fn spec_parse_query(input: Seq<char>) -> Result<QueryV, Seq<char>> {
    let t = trim(input);
    if t.len() == 0 {
        Err("Empty query"@)
    } else {
        spec_classify(t, spec_to_uppercase(t))
    }
}

fn strip_prefix_exec(s: &[char], p: &str) -> (r: Option<Vec<char>>)
    ensures
        r matches Some(v) ==> strip_prefix(s@, p@) == Some(v@),
        r is None ==> strip_prefix(s@, p@) is None,
{
    let pc = str_chars(p);
    if starts_with_chars(s, pc.as_slice()) {
        Some(sub_slice(s, pc.len(), s.len()))
    } else {
        None
    }
}

fn strip_either_exec(s: &[char], a: &str, b: &str) -> (r: Option<Vec<char>>)
    ensures
        r matches Some(v) ==> strip_either(s@, a@, b@) == Some(v@),
        r is None ==> strip_either(s@, a@, b@) is None,
{
    match strip_prefix_exec(s, a) {
        Some(v) => Some(v),
        None => strip_prefix_exec(s, b),
    }
}

fn before_char_exec(s: &[char], c: char) -> (r: Vec<char>)
    ensures
        r@ == before_char(s@, c),
{
    match find_char_exec(s, c) {
        Some(j) => sub_slice(s, 0, j),
        None => sub_slice(s, 0, s.len()),
    }
}

fn before_seq_exec(s: &[char], sep: &[char]) -> (r: Vec<char>)
    ensures
        r@ == before_seq(s@, sep@),
{
    match find_seq_exec(s, sep) {
        Some(j) => sub_slice(s, 0, j),
        None => sub_slice(s, 0, s.len()),
    }
}

fn after_seq_exec(s: &[char], sep: &[char]) -> (r: Option<Vec<char>>)
    ensures
        r matches Some(v) ==> after_seq(s@, sep@) == Some(v@),
        r is None ==> after_seq(s@, sep@) is None,
{
    match find_seq_exec(s, sep) {
        Some(j) => {
            let n = s.len();
            assert(crate::text::occurs_at(sep@, s@, j as int));
            assert(j + sep.len() <= n);
            Some(sub_slice(s, j + sep.len(), n))
        },
        None => None,
    }
}

fn chars_to_string(v: &Vec<char>) -> (r: String)
    ensures
        r@ == v@,
{
    string_from_chars(v.as_slice())
}

fn is_word(s: &[char], w: &str) -> (r: bool)
    ensures
        r == (s@ == w@),
{
    let wc = str_chars(w);
    chars_eq(s, wc.as_slice())
}

/// Reads a property literal: a quoted string, `true`, `false`, `null`, a
/// 64-bit integer or a floating-point number (kept as its text).
pub fn parse_property_value(input: &[char]) -> (r: Result<PropertyValue, String>)
    ensures
        (match r {
            Ok(v) => Ok(v@),
            Err(e) => Err(e@),
        }) == spec_property_value(input@),
{
    let t = trim_chars(input);
    if t.len() > 0 && t[0] == '"' && t[t.len() - 1] == '"' {
        let s = trim_c_chars(t.as_slice(), '"');
        return Ok(PropertyValue::String(chars_to_string(&s)));
    }
    if is_word(t.as_slice(), "true") {
        return Ok(PropertyValue::Boolean(true));
    }
    if is_word(t.as_slice(), "false") {
        return Ok(PropertyValue::Boolean(false));
    }
    if is_word(t.as_slice(), "null") {
        return Ok(PropertyValue::Null);
    }
    match parse_i64_chars(t.as_slice()) {
        Some(i) => Ok(PropertyValue::Integer(i)),
        None => {
            if is_float_literal_chars(t.as_slice()) {
                Ok(PropertyValue::Float(chars_to_string(&t)))
            } else {
                let ts = chars_to_string(&t);
                Err(concat3("Cannot parse property value: '", ts.as_str(), "'"))
            }
        },
    }
}

/// Reads a property block `key: value, ...` (without braces).
pub fn parse_properties(input: &[char]) -> (r: Result<Property, String>)
    ensures
        (match r {
            Ok(p) => Ok(p@),
            Err(e) => Err(e@),
        }) == spec_properties(input@),
{
    let mut props = Property::new();
    if input.len() == 0 {
        return Ok(props);
    }
    let comma: Vec<char> = vec![','];
    assert(comma@ =~= seq![',']);
    let pieces = split_seq_exec(input, comma.as_slice());
    let ghost ps = chars_view(pieces@);
    let mut i: usize = 0;
    while i < pieces.len()
        invariant
            i <= pieces@.len(),
            ps == chars_view(pieces@),
            ps == split_seq(input@, seq![',']),
            input@.len() > 0,
            props_from(ps, i as int, props@) == spec_properties(input@),
        decreases pieces.len() - i,
    {
        let pair = trim_chars(pieces[i].as_slice());
        assert(pair@ == trim(ps[i as int]));
        if pair.len() == 0 {
            i = i + 1;
            continue;
        }
        match find_char_exec(pair.as_slice(), ':') {
            None => {
                let ps_str = chars_to_string(&pair);
                return Err(concat3("Invalid property format: '", ps_str.as_str(), "'"));
            },
            Some(k) => {
                let kp = sub_slice(pair.as_slice(), 0, k);
                let kt = trim_chars(kp.as_slice());
                let key = trim_c_chars(kt.as_slice(), '"');
                let n = pair.len();
                assert(is_first_char(pair@, ':', k as int));
                assert(k < n);
                let vp = sub_slice(pair.as_slice(), k + 1, n);
                let vt = trim_chars(vp.as_slice());
                match parse_property_value(vt.as_slice()) {
                    Ok(v) => {
                        props.insert(chars_to_string(&key), v);
                    },
                    Err(e) => {
                        return Err(e);
                    },
                }
            },
        }
        i = i + 1;
    }
    Ok(props)
}

/// Collects the non-blank pieces, each trimmed.
fn nonblank_trimmed_exec(pieces: &Vec<Vec<char>>) -> (r: Vec<String>)
    ensures
        strings_view(r@) == nonblank_trimmed(chars_view(pieces@)),
{
    let ghost ps = chars_view(pieces@);
    let mut out: Vec<String> = Vec::new();
    let mut i: usize = 0;
    while i < pieces.len()
        invariant
            i <= pieces@.len(),
            ps == chars_view(pieces@),
            strings_view(out@) == nonblank_trimmed(ps.subrange(0, i as int)),
        decreases pieces.len() - i,
    {
        proof {
            assert(ps.subrange(0, i + 1).drop_last() =~= ps.subrange(0, i as int));
        }
        let t = trim_chars(pieces[i].as_slice());
        if t.len() > 0 {
            out.push(chars_to_string(&t));
        }
        i = i + 1;
        proof {
            assert(strings_view(out@) =~= nonblank_trimmed(ps.subrange(0, i as int)));
        }
    }
    assert(ps.subrange(0, pieces.len() as int) =~= ps);
    out
}

/// Reads the labels of a pattern such as `(:Person:Employee)`.
pub fn parse_labels(input: &[char]) -> (r: Result<Vec<String>, String>)
    ensures
        r matches Ok(v) && strings_view(v@) == spec_labels(input@),
{
    let a = trim_chars(input);
    let b = trim_start_c_chars(a.as_slice(), '(');
    let c = trim_end_c_chars(b.as_slice(), ')');
    let x = trim_chars(c.as_slice());
    if x.len() == 0 {
        let v: Vec<String> = Vec::new();
        assert(strings_view(v@) =~= seq![]);
        return Ok(v);
    }
    let colon: Vec<char> = vec![':'];
    assert(colon@ =~= seq![':']);
    let pieces = split_seq_exec(x.as_slice(), colon.as_slice());
    Ok(nonblank_trimmed_exec(&pieces))
}

/// Reads a `key = value` filter.
pub fn parse_where_clause(input: &[char]) -> (r: Result<(String, PropertyValue), String>)
    ensures
        (match r {
            Ok((k, v)) => Ok((k@, v@)),
            Err(e) => Err(e@),
        }) == spec_where(input@),
{
    let t = trim_chars(input);
    match find_char_exec(t.as_slice(), '=') {
        None => Err(crate::text::to_owned_string("WHERE clause must use '=' operator")),
        Some(k) => {
            assert(is_first_char(t@, '=', k as int));
            assert(k < t.len());
            let vp = sub_slice(t.as_slice(), k + 1, t.len());
            let vt = trim_chars(vp.as_slice());
            match parse_property_value(vt.as_slice()) {
                Ok(v) => {
                    let kp = sub_slice(t.as_slice(), 0, k);
                    let key = trim_chars(kp.as_slice());
                    Ok((chars_to_string(&key), v))
                },
                Err(e) => Err(e),
            }
        },
    }
}

fn parse_create_node(input: &[char]) -> (r: Result<Query, String>)
    ensures
        result_view(r) == spec_create_node(input@),
{
    let t = trim_chars(input);
    let r0 = match strip_either_exec(t.as_slice(), "CREATE NODE", "create node") {
        Some(v) => v,
        None => {
            return Err(crate::text::to_owned_string("Invalid CREATE NODE syntax"));
        },
    };
    let rest = trim_chars(r0.as_slice());
    match find_char_exec(rest.as_slice(), '{') {
        Some(i) => {
            assert(is_first_char(rest@, '{', i as int));
            let lp = sub_slice(rest.as_slice(), 0, i);
            let lt = trim_chars(lp.as_slice());
            let labels = match parse_labels(lt.as_slice()) {
                Ok(l) => l,
                Err(e) => {
                    return Err(e);
                },
            };
            let n = rest.len();
            assert(i < n);
            let pp = sub_slice(rest.as_slice(), i + 1, n);
            let pe = trim_end_c_chars(pp.as_slice(), '}');
            let pt = trim_chars(pe.as_slice());
            match parse_properties(pt.as_slice()) {
                Ok(p) => Ok(Query::CreateNode { labels, properties: p }),
                Err(e) => Err(e),
            }
        },
        None => {
            let labels = match parse_labels(rest.as_slice()) {
                Ok(l) => l,
                Err(e) => {
                    return Err(e);
                },
            };
            let p = Property::new();
            Ok(Query::CreateNode { labels, properties: p })
        },
    }
}

fn parse_edge_pattern(pattern: &[char], props: Property) -> (r: Result<Query, String>)
    ensures
        result_view(r) == spec_edge_pattern(pattern@, props@),
{
    let arrow: Vec<char> = vec!['-', '>'];
    assert(arrow@ =~= seq!['-', '>']);
    let a = match find_seq_exec(pattern, arrow.as_slice()) {
        Some(a) => a,
        None => {
            return Err(crate::text::to_owned_string(
                "Edge pattern must contain '->' (e.g., (source_id)-[LABEL]->(target_id))",
            ));
        },
    };
    let n = pattern.len();
    assert(crate::text::occurs_at(arrow@, pattern@, a as int));
    assert(a + 2 <= n);
    let tail = sub_slice(pattern, a + 2, n);
    if find_seq_exec(tail.as_slice(), arrow.as_slice()).is_some() {
        return Err(crate::text::to_owned_string("Invalid edge pattern"));
    }
    let spp = sub_slice(pattern, 0, a);
    let sp = trim_chars(spp.as_slice());
    let tp = trim_chars(tail.as_slice());
    let mid: Vec<char> = vec![')', '-', '['];
    assert(mid@ =~= seq![')', '-', '[']);
    let s1 = trim_start_c_chars(sp.as_slice(), '(');
    let s2 = trim_end_c_chars(s1.as_slice(), ')');
    let s3 = before_seq_exec(s2.as_slice(), mid.as_slice());
    let source_id = trim_chars(s3.as_slice());
    match after_seq_exec(sp.as_slice(), mid.as_slice()) {
        None => Err(crate::text::to_owned_string("Invalid edge label")),
        Some(after) => {
            let l1 = before_seq_exec(after.as_slice(), mid.as_slice());
            let l2 = trim_end_c_chars(l1.as_slice(), ']');
            let label = trim_chars(l2.as_slice());
            let t1 = trim_start_c_chars(tp.as_slice(), '(');
            let t2 = trim_end_c_chars(t1.as_slice(), ')');
            let target_id = trim_chars(t2.as_slice());
            Ok(Query::CreateEdge {
                source_id: chars_to_string(&source_id),
                target_id: chars_to_string(&target_id),
                label: chars_to_string(&label),
                properties: props,
            })
        },
    }
}

fn parse_create_edge(input: &[char]) -> (r: Result<Query, String>)
    ensures
        result_view(r) == spec_create_edge(input@),
{
    let t = trim_chars(input);
    let r0 = match strip_either_exec(t.as_slice(), "CREATE EDGE", "create edge") {
        Some(v) => v,
        None => {
            return Err(crate::text::to_owned_string("Invalid CREATE EDGE syntax"));
        },
    };
    let rest = trim_chars(r0.as_slice());
    match find_char_exec(rest.as_slice(), '{') {
        Some(i) => {
            let n = rest.len();
            assert(is_first_char(rest@, '{', i as int));
            assert(i < n);
            let pp = sub_slice(rest.as_slice(), i + 1, n);
            let pe = trim_end_c_chars(pp.as_slice(), '}');
            let pt = trim_chars(pe.as_slice());
            match parse_properties(pt.as_slice()) {
                Ok(p) => {
                    let pat = sub_slice(rest.as_slice(), 0, i);
                    let pat_t = trim_chars(pat.as_slice());
                    parse_edge_pattern(pat_t.as_slice(), p)
                },
                Err(e) => Err(e),
            }
        },
        None => parse_edge_pattern(rest.as_slice(), Property::new()),
    }
}

/// Reads the optional `WHERE key = value` part of a node match; `label` is
/// the matched label and `remaining` the text after the node pattern.
pub fn parse_match_where(label: String, remaining: &[char]) -> (r: Result<Query, String>)
    ensures
        result_view(r) == spec_match_where(label@, remaining@),
{
    let rt = trim_chars(remaining);
    let rs = chars_to_string(&rt);
    let up = to_uppercase(rs.as_str());
    let upc = str_chars(up.as_str());
    let kw: Vec<char> = vec!['W', 'H', 'E', 'R', 'E'];
    proof { reveal_strlit("WHERE"); }
    assert(kw@ =~= "WHERE"@);
    if starts_with_chars(upc.as_slice(), kw.as_slice()) {
        match strip_either_exec(rt.as_slice(), "WHERE", "where") {
            None => Err(crate::text::to_owned_string("Invalid WHERE clause")),
            Some(w) => {
                let wt = trim_chars(w.as_slice());
                match parse_where_clause(wt.as_slice()) {
                    Ok(f) => Ok(Query::MatchNodes { label: Some(label), property_filter: Some(f) }),
                    Err(e) => Err(e),
                }
            },
        }
    } else {
        Ok(Query::MatchNodes { label: Some(label), property_filter: None })
    }
}

fn parse_match(input: &[char]) -> (r: Result<Query, String>)
    ensures
        result_view(r) == spec_match(input@),
{
    let t = trim_chars(input);
    let r0 = match strip_either_exec(t.as_slice(), "MATCH", "match") {
        Some(v) => v,
        None => {
            return Err(crate::text::to_owned_string("Invalid MATCH syntax"));
        },
    };
    let rest = trim_chars(r0.as_slice());
    let close = find_char_exec(rest.as_slice(), ')');
    if rest.len() > 0 && rest[0] == '(' && close.is_some() {
        let k = close.unwrap();
        let q = trim_start_c_chars(rest.as_slice(), '(');
        let np0 = before_char_exec(q.as_slice(), ')');
        let node_pattern = trim_chars(np0.as_slice());
        let n = rest.len();
        assert(is_first_char(rest@, ')', k as int));
        assert(k < n);
        let after = sub_slice(rest.as_slice(), k + 1, n);
        let remaining = remove_char_exec(after.as_slice(), ')');
        match find_char_exec(node_pattern.as_slice(), ':') {
            Some(c) => {
                let n = node_pattern.len();
                assert(is_first_char(node_pattern@, ':', c as int));
                assert(c < n);
                let lp = sub_slice(node_pattern.as_slice(), c + 1, n);
                let lt = trim_chars(lp.as_slice());
                parse_match_where(chars_to_string(&lt), remaining.as_slice())
            },
            None => Ok(Query::MatchNodes { label: None, property_filter: None }),
        }
    } else if rest.len() > 0 && (rest[0] == '-' || rest[0] == '[') {
        match (find_char_exec(rest.as_slice(), '['), find_char_exec(rest.as_slice(), ']')) {
            (Some(b), Some(_)) => {
                let n = rest.len();
                assert(is_first_char(rest@, '[', b as int));
                assert(b < n);
                let a1 = sub_slice(rest.as_slice(), b + 1, n);
                let a2 = before_char_exec(a1.as_slice(), '[');
                let a3 = before_char_exec(a2.as_slice(), ']');
                let ls = trim_chars(a3.as_slice());
                if ls.len() == 0 {
                    Ok(Query::MatchEdges { label: None })
                } else {
                    Ok(Query::MatchEdges { label: Some(chars_to_string(&ls)) })
                }
            },
            _ => Ok(Query::MatchEdges { label: None }),
        }
    } else {
        Err(crate::text::to_owned_string(
            "Invalid MATCH pattern. Use (:Label) for nodes or -[:LABEL]-> for edges",
        ))
    }
}

fn has_prefix_str(s: &[char], p: &str) -> (r: bool)
    ensures
        r == is_prefix(p@, s@),
{
    let pc = str_chars(p);
    starts_with_chars(s, pc.as_slice())
}

/// Classifies a trimmed, non-empty command line by its upper-cased form
/// `upper` and parses it.
pub fn classify_query(input: &[char], upper: &[char]) -> (r: Result<Query, String>)
    ensures
        result_view(r) == spec_classify(input@, upper@),
{
    if is_word(upper, "EXIT") || is_word(upper, "QUIT") {
        return Ok(Query::Exit);
    }
    if is_word(upper, "HELP") {
        return Ok(Query::Help);
    }
    if has_prefix_str(upper, "SHOW NODES") {
        return Ok(Query::ShowNodes);
    }
    if has_prefix_str(upper, "SHOW EDGES") {
        return Ok(Query::ShowEdges);
    }
    if has_prefix_str(upper, "CREATE NODE") {
        return parse_create_node(input);
    }
    if has_prefix_str(upper, "CREATE EDGE") {
        return parse_create_edge(input);
    }
    if has_prefix_str(upper, "MATCH") {
        return parse_match(input);
    }
    Err(crate::text::to_owned_string("Unknown query type. Type HELP for available commands."))
}

/// Parses one command line of the property-graph language.
pub fn parse_query(input: &str) -> (r: Result<Query, String>)
    ensures
        result_view(r) == spec_parse_query(input@),
{
    let ic = str_chars(input);
    let t = trim_chars(ic.as_slice());
    if t.len() == 0 {
        return Err(crate::text::to_owned_string("Empty query"));
    }
    let ts = chars_to_string(&t);
    let up = to_uppercase(ts.as_str());
    let upc = str_chars(up.as_str());
    classify_query(t.as_slice(), upc.as_slice())
}

} // verus!
