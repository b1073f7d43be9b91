//! Runs property-graph commands against a graph store and renders their
//! results as text.
use vstd::prelude::*;
use crate::graph::storage::{GraphStorage, node_index, upsert_node, upsert_edge};
use crate::graph::types::{
    Node, NodeV, Edge, EdgeV, Property, PropertyValue, PropertyValueV, strings_view, property_value_eq,
};
use crate::ids::spec_uuid_text;
use crate::order::{sort_strings, sorted_version};
use crate::query::parser::{Query, QueryV};
use crate::text::{
    nat_text, int_text, push_str, concat3, to_owned_string, usize_to_string, i64_to_string, str_is,
};

verus! {

/// The outcome of a property-graph command.
#[derive(Debug)]
pub enum QueryResult {
    NodeCreated(Node),
    EdgeCreated(Edge),
    Nodes(Vec<Node>),
    Edges(Vec<Edge>),
    Error(String),
    Help,
    Exit,
}

/// The mathematical model of a [`QueryResult`].
pub enum QueryResultV {
    NodeCreated(NodeV),
    EdgeCreated(EdgeV),
    Nodes(Seq<NodeV>),
    Edges(Seq<EdgeV>),
    Error(Seq<char>),
    Help,
    Exit,
}

impl View for QueryResult {
    type V = QueryResultV;

    open spec fn view(&self) -> QueryResultV {
        match self {
            QueryResult::NodeCreated(n) => QueryResultV::NodeCreated(n@),
            QueryResult::EdgeCreated(e) => QueryResultV::EdgeCreated(e@),
            QueryResult::Nodes(ns) => QueryResultV::Nodes(ns@.map_values(|n: Node| n@)),
            QueryResult::Edges(es) => QueryResultV::Edges(es@.map_values(|e: Edge| e@)),
            QueryResult::Error(m) => QueryResultV::Error(m@),
            QueryResult::Help => QueryResultV::Help,
            QueryResult::Exit => QueryResultV::Exit,
        }
    }
}

/// Whether a node passes a `MATCH` filter: it has the label (if one is
/// given) and the property with the given value (if a filter is given).
pub open spec fn node_matches(
    n: NodeV,
    label: Option<Seq<char>>,
    filter: Option<(Seq<char>, PropertyValueV)>,
) -> bool {
    (match label {
        Some(l) => n.labels.contains(l),
        None => true,
    }) && (match filter {
        Some((k, v)) => n.properties.contains_key(k) && n.properties[k] == v,
        None => true,
    })
}

/// The node filter of a `MATCH` command.
pub open spec fn node_filter(
    label: Option<Seq<char>>,
    filter: Option<(Seq<char>, PropertyValueV)>,
) -> spec_fn(NodeV) -> bool {
    |n: NodeV| node_matches(n, label, filter)
}

/// The edge filter of a `MATCH` command.
pub open spec fn edge_filter(label: Option<Seq<char>>) -> spec_fn(EdgeV) -> bool {
    |e: EdgeV| match label {
        Some(l) => e.label == l,
        None => true,
    }
}

/// Runs property-graph commands against the graph store it owns.
pub struct QueryExecutor {
    storage: GraphStorage,
}

impl QueryExecutor {
    /// The graph store.
    pub closed spec fn store(&self) -> GraphStorage {
        self.storage
    }

    /// An executor over the given store.
    pub fn new(storage: GraphStorage) -> (r: Self)
        ensures
            r.store() == storage,
    {
        QueryExecutor { storage }
    }

    /// The graph store.
    pub fn storage(&self) -> (r: &GraphStorage)
        ensures
            *r == self.store(),
    {
        &self.storage
    }

    /// Runs one command. Creating a node stores it under a fresh identifier;
    /// creating an edge between nodes of which one is not stored answers
    /// `Error` and changes nothing; the other commands only read.
    pub fn execute(&mut self, query: Query) -> (r: Result<QueryResult, String>)
        ensures
            r is Ok,
            ({
                let g = old(self).store();
                let h = final(self).store();
                let res = r->Ok_0@;
                match query@ {
                    QueryV::CreateNode { labels, properties } => res matches QueryResultV::NodeCreated(n) && {
                        &&& n.labels == labels
                        &&& n.properties == properties
                        &&& exists|u: u128| n.id == spec_uuid_text(u)
                        &&& h.nodes() == upsert_node(g.nodes(), n)
                        &&& h.edges() == g.edges()
                    },
                    QueryV::CreateEdge { source_id, target_id, label, properties } => {
                        if node_index(g.nodes(), source_id) is None {
                            res == QueryResultV::Error("Source node '"@ + source_id + "' does not exist"@)
                                && h == g
                        } else if node_index(g.nodes(), target_id) is None {
                            res == QueryResultV::Error("Target node '"@ + target_id + "' does not exist"@)
                                && h == g
                        } else {
                            res matches QueryResultV::EdgeCreated(e) && {
                                &&& e.source == source_id
                                &&& e.target == target_id
                                &&& e.label == label
                                &&& e.properties == properties
                                &&& exists|u: u128| e.id == spec_uuid_text(u)
                                &&& h.edges() == upsert_edge(g.edges(), e)
                                &&& h.nodes() == g.nodes()
                            }
                        }
                    },
                    QueryV::MatchNodes { label, property_filter } => h == g
                        && res == QueryResultV::Nodes(g.nodes().filter(node_filter(label, property_filter))),
                    QueryV::MatchEdges { label } => h == g
                        && res == QueryResultV::Edges(g.edges().filter(edge_filter(label))),
                    QueryV::ShowNodes => h == g && res == QueryResultV::Nodes(g.nodes()),
                    QueryV::ShowEdges => h == g && res == QueryResultV::Edges(g.edges()),
                    QueryV::Help => h == g && res == QueryResultV::Help,
                    QueryV::Exit => h == g && res == QueryResultV::Exit,
                }
            }),
    {
        match query {
            Query::CreateNode { labels, properties } => {
                let node = Node::new(labels, properties);
                let _ = self.storage.create_node(&node);
                Ok(QueryResult::NodeCreated(node))
            },
            Query::CreateEdge { source_id, target_id, label, properties } => {
                let src = self.storage.get_node(source_id.as_str());
                match src {
                    Ok(None) => {
                        return Ok(QueryResult::Error(concat3(
                            "Source node '",
                            source_id.as_str(),
                            "' does not exist",
                        )));
                    },
                    _ => {},
                }
                let tgt = self.storage.get_node(target_id.as_str());
                match tgt {
                    Ok(None) => {
                        return Ok(QueryResult::Error(concat3(
                            "Target node '",
                            target_id.as_str(),
                            "' does not exist",
                        )));
                    },
                    _ => {},
                }
                let edge = Edge::new(source_id, target_id, label, properties);
                let _ = self.storage.create_edge(&edge);
                Ok(QueryResult::EdgeCreated(edge))
            },
            Query::MatchNodes { label, property_filter } => {
                let all = self.storage.get_all_nodes();
                let all = match all {
                    Ok(v) => v,
                    Err(e) => {
                        return Err(e);
                    },
                };
                let ghost lv = opt_str_view(&label);
                let ghost fv = opt_filter_view(&property_filter);
                let ghost src = all@.map_values(|n: Node| n@);
                let mut out: Vec<Node> = Vec::new();
                let mut i: usize = 0;
                while i < all.len()
                    invariant
                        i <= all@.len(),
                        src == all@.map_values(|n: Node| n@),
                        lv == opt_str_view(&label),
                        fv == opt_filter_view(&property_filter),
                        out@.map_values(|n: Node| n@) == src.subrange(0, i as int).filter(node_filter(lv, fv)),
                    decreases all.len() - i,
                {
                    proof {
                        reveal(Seq::filter);
                        assert(src.subrange(0, i + 1).drop_last() =~= src.subrange(0, i as int));
                    }
                    let n = &all[i];
                    let keep = node_has_label(n, &label) && node_has_property(n, &property_filter);
                    if keep {
                        out.push(n.clone());
                    }
                    i = i + 1;
                    proof {
                        assert(out@.map_values(|n: Node| n@) =~= src.subrange(0, i as int).filter(node_filter(lv, fv)));
                    }
                }
                assert(src.subrange(0, all.len() as int) =~= src);
                Ok(QueryResult::Nodes(out))
            },
            Query::MatchEdges { label } => {
                let all = self.storage.get_all_edges();
                let all = match all {
                    Ok(v) => v,
                    Err(e) => {
                        return Err(e);
                    },
                };
                let ghost lv = opt_str_view(&label);
                let ghost src = all@.map_values(|e: Edge| e@);
                let mut out: Vec<Edge> = Vec::new();
                let mut i: usize = 0;
                while i < all.len()
                    invariant
                        i <= all@.len(),
                        src == all@.map_values(|e: Edge| e@),
                        lv == opt_str_view(&label),
                        out@.map_values(|e: Edge| e@) == src.subrange(0, i as int).filter(edge_filter(lv)),
                    decreases all.len() - i,
                {
                    proof {
                        reveal(Seq::filter);
                        assert(src.subrange(0, i + 1).drop_last() =~= src.subrange(0, i as int));
                    }
                    let e = &all[i];
                    let keep = match &label {
                        Some(l) => str_is(e.label.as_str(), l.as_str()),
                        None => true,
                    };
                    if keep {
                        out.push(e.clone());
                    }
                    i = i + 1;
                    proof {
                        assert(out@.map_values(|e: Edge| e@) =~= src.subrange(0, i as int).filter(edge_filter(lv)));
                    }
                }
                assert(src.subrange(0, all.len() as int) =~= src);
                Ok(QueryResult::Edges(out))
            },
            Query::ShowNodes => {
                match self.storage.get_all_nodes() {
                    Ok(v) => Ok(QueryResult::Nodes(v)),
                    Err(e) => Err(e),
                }
            },
            Query::ShowEdges => {
                match self.storage.get_all_edges() {
                    Ok(v) => Ok(QueryResult::Edges(v)),
                    Err(e) => Err(e),
                }
            },
            Query::Help => Ok(QueryResult::Help),
            Query::Exit => Ok(QueryResult::Exit),
        }
    }
}

/// The model of an optional string.
pub open spec fn opt_str_view(o: &Option<String>) -> Option<Seq<char>> {
    match o {
        Some(s) => Some(s@),
        None => None,
    }
}

/// The model of an optional property filter.
pub open spec fn opt_filter_view(f: &Option<(String, PropertyValue)>) -> Option<(Seq<char>, PropertyValueV)> {
    match f {
        Some((k, v)) => Some((k@, v@)),
        None => None,
    }
}

fn node_has_label(n: &Node, label: &Option<String>) -> (r: bool)
    ensures
        r == (match opt_str_view(label) {
            Some(l) => n@.labels.contains(l),
            None => true,
        }),
{
    match label {
        None => true,
        Some(l) => {
            assert(opt_str_view(label) == Some(l@));
            let mut i: usize = 0;
            while i < n.labels.len()
                invariant
                    i <= n.labels@.len(),
                    opt_str_view(label) == Some(l@),
                    forall|j: int| 0 <= j < i ==> n.labels@[j]@ != l@,
                decreases n.labels.len() - i,
            {
                if str_is(n.labels[i].as_str(), l.as_str()) {
                    assert(n@.labels[i as int] == l@);
                    assert(n@.labels.contains(l@));
                    return true;
                }
                i = i + 1;
            }
            proof {
                if n@.labels.contains(l@) {
                    let j = choose|j: int| 0 <= j < n@.labels.len() && n@.labels[j] == l@;
                    assert(n.labels@[j]@ == l@);
                }
            }
            false
        },
    }
}

fn node_has_property(n: &Node, filter: &Option<(String, PropertyValue)>) -> (r: bool)
    ensures
        r == (match filter {
            Some((k, v)) => n@.properties.contains_key(k@) && n@.properties[k@] == v@,
            None => true,
        }),
{
    match filter {
        None => true,
        Some((k, v)) => match n.properties.get(k.as_str()) {
            Some(x) => property_value_eq(x, v),
            None => false,
        },
    }
}

/// The text of a property value: strings in double quotes, numbers and
/// booleans as written, `null`.
pub open spec fn value_text(v: PropertyValueV) -> Seq<char> {
    match v {
        PropertyValueV::String(s) => "\""@ + s + "\""@,
        PropertyValueV::Integer(i) => int_text(i as int),
        PropertyValueV::Float(t) => t,
        PropertyValueV::Boolean(b) => if b { "true"@ } else { "false"@ },
        PropertyValueV::Null => "null"@,
    }
}

/// The text `key: value` of one property.
pub open spec fn item_text(item: (Seq<char>, PropertyValueV)) -> Seq<char> {
    item.0 + ": "@ + value_text(item.1)
}

/// The parts joined with `sep` between consecutive parts.
pub open spec fn join(parts: Seq<Seq<char>>, sep: Seq<char>) -> Seq<char>
    decreases parts.len(),
{
    if parts.len() == 0 {
        seq![]
    } else if parts.len() == 1 {
        parts[0]
    } else {
        join(parts.drop_last(), sep) + sep + parts.last()
    }
}

/// The `key: value` texts of the properties, in order.
pub open spec fn items_text(items: Seq<(Seq<char>, PropertyValueV)>) -> Seq<Seq<char>> {
    items.map_values(|it: (Seq<char>, PropertyValueV)| item_text(it))
}

/// The text of a property map: `{}` when empty, else the `key: value`
/// texts sorted and joined with ", " inside braces.
pub open spec fn properties_text(items: Seq<(Seq<char>, PropertyValueV)>) -> Seq<char> {
    if items.len() == 0 {
        "{}"@
    } else {
        "{"@ + join(sorted_version(items_text(items)), ", "@) + "}"@
    }
}

/// The description of a node after its identifier.
pub open spec fn node_text(n: NodeV) -> Seq<char> {
    n.id + " (labels: "@ + join(n.labels, ", "@) + ", properties: "@ + properties_text(n.items) + ")"@
}

/// The description of an edge after its identifier.
pub open spec fn edge_text(e: EdgeV) -> Seq<char> {
    e.id + " ("@ + e.source + " -["@ + e.label + "]-> "@ + e.target + ", properties: "@
        + properties_text(e.items) + ")"@
}

/// One line per node.
pub open spec fn node_lines(ns: Seq<NodeV>) -> Seq<char>
    decreases ns.len(),
{
    if ns.len() == 0 {
        seq![]
    } else {
        node_lines(ns.drop_last()) + "  - "@ + node_text(ns.last()) + "\n"@
    }
}

/// One line per edge.
pub open spec fn edge_lines(es: Seq<EdgeV>) -> Seq<char>
    decreases es.len(),
{
    if es.len() == 0 {
        seq![]
    } else {
        edge_lines(es.drop_last()) + "  - "@ + edge_text(es.last()) + "\n"@
    }
}

/// The help text of the property-graph language.
pub open spec fn graph_help_text() -> Seq<char> {
    "\nMinigraf Query Language Commands:\n\nCREATE NODE (:Label1:Label2) {prop1: \"value\", prop2: 123}\n  - Create a node with labels and properties\n  - Properties are optional\n  - Examples:\n    CREATE NODE (:Person) {name: \"Alice\", age: 30}\n    CREATE NODE (:Person:Employee)\n\nCREATE EDGE (source_id)-[LABEL]->(target_id) {prop: \"value\"}\n  - Create an edge between two existing nodes\n  - Properties are optional\n  - Example:\n    CREATE EDGE (node-id-1)-[KNOWS]->(node-id-2) {since: 2020}\n\nMATCH (:Label) [WHERE property = value]\n  - Find nodes by label and optional property filter\n  - Examples:\n    MATCH (:Person)\n    MATCH (:Person) WHERE name = \"Alice\"\n\nMATCH -[:LABEL]->\n  - Find edges by label\n  - Example:\n    MATCH -[:KNOWS]->\n\nSHOW NODES\n  - Show all nodes in the graph\n\nSHOW EDGES\n  - Show all edges in the graph\n\nHELP\n  - Show this help message\n\nEXIT or QUIT\n  - Exit the console\n"@
}

/// The text of a command's outcome.
pub open spec fn result_text(r: QueryResultV) -> Seq<char> {
    match r {
        QueryResultV::NodeCreated(n) => "Node created: "@ + node_text(n),
        QueryResultV::EdgeCreated(e) => "Edge created: "@ + edge_text(e),
        QueryResultV::Nodes(ns) => if ns.len() == 0 {
            "No nodes found."@
        } else {
            "Found "@ + nat_text(ns.len()) + " node(s):\n"@ + node_lines(ns)
        },
        QueryResultV::Edges(es) => if es.len() == 0 {
            "No edges found."@
        } else {
            "Found "@ + nat_text(es.len()) + " edge(s):\n"@ + edge_lines(es)
        },
        QueryResultV::Error(m) => "Error: "@ + m,
        QueryResultV::Help => graph_help_text(),
        QueryResultV::Exit => "Goodbye!"@,
    }
}

fn join_strings(parts: &Vec<String>, sep: &str) -> (r: String)
    ensures
        r@ == join(strings_view(parts@), sep@),
{
    let ghost ps = strings_view(parts@);
    let mut out = String::new();
    let mut i: usize = 0;
    assert(out@ =~= join(ps.subrange(0, 0), sep@));
    while i < parts.len()
        invariant
            i <= parts@.len(),
            ps == strings_view(parts@),
            out@ == join(ps.subrange(0, i as int), sep@),
        decreases parts.len() - i,
    {
        proof {
            assert(ps.subrange(0, i + 1).drop_last() =~= ps.subrange(0, i as int));
        }
        if i > 0 {
            push_str(&mut out, sep);
        }
        push_str(&mut out, parts[i].as_str());
        i = i + 1;
        proof {
            let q = ps.subrange(0, i as int);
            if i == 1 {
                assert(out@ =~= q[0]);
            } else {
                assert(out@ =~= join(q.drop_last(), sep@) + sep@ + q.last());
            }
        }
    }
    assert(ps.subrange(0, parts.len() as int) =~= ps);
    out
}

/// The text of a property value.
pub fn format_property_value(v: &PropertyValue) -> (r: String)
    ensures
        r@ == value_text(v@),
{
    match v {
        PropertyValue::String(s) => concat3("\"", s.as_str(), "\""),
        PropertyValue::Integer(i) => i64_to_string(*i),
        PropertyValue::Float(t) => t.clone(),
        PropertyValue::Boolean(b) => if *b { to_owned_string("true") } else { to_owned_string("false") },
        PropertyValue::Null => to_owned_string("null"),
    }
}

/// The text of a property map (`{}` or the sorted `key: value` texts).
pub fn format_properties(props: &Property) -> (r: String)
    ensures
        r@ == properties_text(props.items()),
{
    if props.is_empty() {
        return to_owned_string("{}");
    }
    let ghost items = props.items();
    let mut texts: Vec<String> = Vec::new();
    let mut i: usize = 0;
    let n = props.len();
    while i < n
        invariant
            i <= n,
            n == items.len(),
            items == props.items(),
            strings_view(texts@) == items_text(items.subrange(0, i as int)),
        decreases n - i,
    {
        let (k, v) = props.entry(i);
        let vt = format_property_value(v);
        let t = concat3(k.as_str(), ": ", vt.as_str());
        assert(t@ == item_text(items[i as int]));
        let ghost before = texts@;
        texts.push(t);
        i = i + 1;
        proof {
            assert(items.subrange(0, i as int) =~= items.subrange(0, i - 1).push(items[i - 1]));
            assert(strings_view(texts@) =~= strings_view(before).push(items_text(items)[i - 1]));
            assert(items_text(items.subrange(0, i as int)) =~= items_text(items.subrange(0, i - 1)).push(items_text(items)[i - 1]));
            assert(strings_view(texts@) =~= items_text(items.subrange(0, i as int)));
        }
    }
    assert(items.subrange(0, n as int) =~= items);
    let sorted = sort_strings(&texts);
    let joined = join_strings(&sorted, ", ");
    concat3("{", joined.as_str(), "}")
}

fn node_text_exec(n: &Node) -> (r: String)
    ensures
        r@ == node_text(n@),
{
    let mut s = n.id.clone();
    push_str(&mut s, " (labels: ");
    let labels = join_strings(&n.labels, ", ");
    push_str(&mut s, labels.as_str());
    push_str(&mut s, ", properties: ");
    let props = format_properties(&n.properties);
    push_str(&mut s, props.as_str());
    push_str(&mut s, ")");
    s
}

fn edge_text_exec(e: &Edge) -> (r: String)
    ensures
        r@ == edge_text(e@),
{
    let mut s = e.id.clone();
    push_str(&mut s, " (");
    push_str(&mut s, e.source.as_str());
    push_str(&mut s, " -[");
    push_str(&mut s, e.label.as_str());
    push_str(&mut s, "]-> ");
    push_str(&mut s, e.target.as_str());
    push_str(&mut s, ", properties: ");
    let props = format_properties(&e.properties);
    push_str(&mut s, props.as_str());
    push_str(&mut s, ")");
    s
}

fn graph_help_exec() -> (r: String)
    ensures
        r@ == graph_help_text(),
{
    to_owned_string("\nMinigraf Query Language Commands:\n\nCREATE NODE (:Label1:Label2) {prop1: \"value\", prop2: 123}\n  - Create a node with labels and properties\n  - Properties are optional\n  - Examples:\n    CREATE NODE (:Person) {name: \"Alice\", age: 30}\n    CREATE NODE (:Person:Employee)\n\nCREATE EDGE (source_id)-[LABEL]->(target_id) {prop: \"value\"}\n  - Create an edge between two existing nodes\n  - Properties are optional\n  - Example:\n    CREATE EDGE (node-id-1)-[KNOWS]->(node-id-2) {since: 2020}\n\nMATCH (:Label) [WHERE property = value]\n  - Find nodes by label and optional property filter\n  - Examples:\n    MATCH (:Person)\n    MATCH (:Person) WHERE name = \"Alice\"\n\nMATCH -[:LABEL]->\n  - Find edges by label\n  - Example:\n    MATCH -[:KNOWS]->\n\nSHOW NODES\n  - Show all nodes in the graph\n\nSHOW EDGES\n  - Show all edges in the graph\n\nHELP\n  - Show this help message\n\nEXIT or QUIT\n  - Exit the console\n")
}

impl QueryResult {
    /// The text shown for this outcome.
    pub fn format(&self) -> (r: String)
        ensures
            r@ == result_text(self@),
    {
        match self {
            QueryResult::NodeCreated(n) => {
                let t = node_text_exec(n);
                let mut s = to_owned_string("Node created: ");
                push_str(&mut s, t.as_str());
                s
            },
            QueryResult::EdgeCreated(e) => {
                let t = edge_text_exec(e);
                let mut s = to_owned_string("Edge created: ");
                push_str(&mut s, t.as_str());
                s
            },
            QueryResult::Nodes(nodes) => {
                if nodes.len() == 0 {
                    return to_owned_string("No nodes found.");
                }
                let ghost nv = nodes@.map_values(|n: Node| n@);
                let mut s = to_owned_string("Found ");
                let count = usize_to_string(nodes.len());
                push_str(&mut s, count.as_str());
                push_str(&mut s, " node(s):\n");
                let ghost head = s@;
                let mut i: usize = 0;
                while i < nodes.len()
                    invariant
                        i <= nodes@.len(),
                        nv == nodes@.map_values(|n: Node| n@),
                        s@ == head + node_lines(nv.subrange(0, i as int)),
                    decreases nodes.len() - i,
                {
                    proof {
                        assert(nv.subrange(0, i + 1).drop_last() =~= nv.subrange(0, i as int));
                    }
                    push_str(&mut s, "  - ");
                    let t = node_text_exec(&nodes[i]);
                    push_str(&mut s, t.as_str());
                    push_str(&mut s, "\n");
                    i = i + 1;
                    proof {
                        assert(s@ =~= head + node_lines(nv.subrange(0, i as int)));
                    }
                }
                assert(nv.subrange(0, nodes.len() as int) =~= nv);
                s
            },
            QueryResult::Edges(edges) => {
                if edges.len() == 0 {
                    return to_owned_string("No edges found.");
                }
                let ghost ev = edges@.map_values(|e: Edge| e@);
                let mut s = to_owned_string("Found ");
                let count = usize_to_string(edges.len());
                push_str(&mut s, count.as_str());
                push_str(&mut s, " edge(s):\n");
                let ghost head = s@;
                let mut i: usize = 0;
                while i < edges.len()
                    invariant
                        i <= edges@.len(),
                        ev == edges@.map_values(|e: Edge| e@),
                        s@ == head + edge_lines(ev.subrange(0, i as int)),
                    decreases edges.len() - i,
                {
                    proof {
                        assert(ev.subrange(0, i + 1).drop_last() =~= ev.subrange(0, i as int));
                    }
                    push_str(&mut s, "  - ");
                    let t = edge_text_exec(&edges[i]);
                    push_str(&mut s, t.as_str());
                    push_str(&mut s, "\n");
                    i = i + 1;
                    proof {
                        assert(s@ =~= head + edge_lines(ev.subrange(0, i as int)));
                    }
                }
                assert(ev.subrange(0, edges.len() as int) =~= ev);
                s
            },
            QueryResult::Error(m) => {
                let mut s = to_owned_string("Error: ");
                push_str(&mut s, m.as_str());
                s
            },
            QueryResult::Help => graph_help_exec(),
            QueryResult::Exit => to_owned_string("Goodbye!"),
        }
    }
}

} // verus!

verus! {

/// What `MATCH (:label) WHERE k = v` returns (see [`QueryExecutor::execute`]):
/// every node in the answer is a stored node that carries the label and has
/// property `k` with value exactly `v`; and every stored node that does is in
/// the answer.
pub proof fn lemma_match_nodes_where(nodes: Seq<NodeV>, label: Option<Seq<char>>, k: Seq<char>, v: PropertyValueV)
    ensures
        forall|i: int| 0 <= i < nodes.filter(node_filter(label, Some((k, v)))).len() ==> {
            let n = #[trigger] nodes.filter(node_filter(label, Some((k, v))))[i];
            &&& nodes.contains(n)
            &&& n.properties.contains_key(k)
            &&& n.properties[k] == v
            &&& (label matches Some(l) ==> n.labels.contains(l))
        },
        forall|j: int| 0 <= j < nodes.len() && nodes[j].properties.contains_key(k) && nodes[j].properties[k] == v
            && (label matches Some(l) ==> nodes[j].labels.contains(l))
            ==> #[trigger] nodes.filter(node_filter(label, Some((k, v)))).contains(nodes[j]),
{
    let p = node_filter(label, Some((k, v)));
    assert forall|i: int| 0 <= i < nodes.filter(p).len() implies {
        let n = #[trigger] nodes.filter(p)[i];
        &&& nodes.contains(n)
        &&& n.properties.contains_key(k)
        &&& n.properties[k] == v
        &&& (label matches Some(l) ==> n.labels.contains(l))
    } by {
        nodes.lemma_filter_pred(p, i);
        assert(nodes.filter(p).contains(nodes.filter(p)[i]));
        nodes.lemma_filter_contains_rev(p, nodes.filter(p)[i]);
    }
    assert forall|j: int| 0 <= j < nodes.len() && nodes[j].properties.contains_key(k) && nodes[j].properties[k] == v
        && (label matches Some(l) ==> nodes[j].labels.contains(l))
        implies #[trigger] nodes.filter(p).contains(nodes[j]) by {
        assert(p(nodes[j]));
        nodes.lemma_filter_contains(p, j);
    }
}

/// Without a `WHERE`, `MATCH (:label)` returns exactly the stored nodes that
/// carry the label.
pub proof fn lemma_match_nodes_label(nodes: Seq<NodeV>, l: Seq<char>)
    ensures
        forall|i: int| 0 <= i < nodes.filter(node_filter(Some(l), None)).len() ==> {
            let n = #[trigger] nodes.filter(node_filter(Some(l), None))[i];
            nodes.contains(n) && n.labels.contains(l)
        },
        forall|j: int| 0 <= j < nodes.len() && nodes[j].labels.contains(l)
            ==> #[trigger] nodes.filter(node_filter(Some(l), None)).contains(nodes[j]),
{
    let p = node_filter(Some(l), None);
    assert forall|i: int| 0 <= i < nodes.filter(p).len() implies {
        let n = #[trigger] nodes.filter(p)[i];
        nodes.contains(n) && n.labels.contains(l)
    } by {
        nodes.lemma_filter_pred(p, i);
        assert(nodes.filter(p).contains(nodes.filter(p)[i]));
        nodes.lemma_filter_contains_rev(p, nodes.filter(p)[i]);
    }
    assert forall|j: int| 0 <= j < nodes.len() && nodes[j].labels.contains(l)
        implies #[trigger] nodes.filter(p).contains(nodes[j]) by {
        assert(p(nodes[j]));
        nodes.lemma_filter_contains(p, j);
    }
}

/// `MATCH -[:label]->` returns exactly the stored edges with that label, and
/// without a label every stored edge.
pub proof fn lemma_match_edges_label(edges: Seq<EdgeV>, l: Seq<char>)
    ensures
        forall|i: int| 0 <= i < edges.filter(edge_filter(Some(l))).len() ==> {
            let e = #[trigger] edges.filter(edge_filter(Some(l)))[i];
            edges.contains(e) && e.label == l
        },
        forall|j: int| 0 <= j < edges.len() && edges[j].label == l ==> #[trigger] edges.filter(
            edge_filter(Some(l)),
        ).contains(edges[j]),
        edges.filter(edge_filter(None)) == edges,
    decreases edges.len(),
{
    let p = edge_filter(Some(l));
    assert forall|i: int| 0 <= i < edges.filter(p).len() implies {
        let e = #[trigger] edges.filter(p)[i];
        edges.contains(e) && e.label == l
    } by {
        edges.lemma_filter_pred(p, i);
        assert(edges.filter(p).contains(edges.filter(p)[i]));
        edges.lemma_filter_contains_rev(p, edges.filter(p)[i]);
    }
    assert forall|j: int| 0 <= j < edges.len() && edges[j].label == l implies #[trigger] edges.filter(p).contains(
        edges[j],
    ) by {
        assert(p(edges[j]));
        edges.lemma_filter_contains(p, j);
    }
    if edges.len() > 0 {
        lemma_match_edges_label(edges.drop_last(), l);
        reveal(Seq::filter);
        assert(edges.drop_last().push(edges.last()) =~= edges);
    } else {
        reveal(Seq::filter);
        assert(edges.filter(edge_filter(None)) =~= edges);
    }
}

} // verus!
