use minigraf::graph::storage::GraphStorage;
use minigraf::graph::types::{Node, Property, PropertyValue};
use minigraf::query::executor::{QueryExecutor, QueryResult};
use minigraf::query::parser::{parse_query, Query};

#[test]
fn test_create_edge() {
    let mut storage = GraphStorage::new();
    let node1 = Node::new(vec!["Person".to_string()], Property::new());
    let node2 = Node::new(vec!["Person".to_string()], Property::new());
    storage.create_node(&node1).unwrap();
    storage.create_node(&node2).unwrap();
    let mut executor = QueryExecutor::new(storage);

    let query_str = format!("CREATE EDGE ({})-[KNOWS]->({}) {{since: 2020}}", node1.id, node2.id);
    let query = parse_query(&query_str).unwrap();
    let result = executor.execute(query).unwrap();

    match result {
        QueryResult::EdgeCreated(edge) => {
            assert_eq!(edge.label, "KNOWS");
            assert_eq!(edge.source, node1.id);
            assert_eq!(edge.target, node2.id);
        }
        _ => panic!("Expected EdgeCreated"),
    }
}

#[test]
fn test_match_nodes() {
    let mut storage = GraphStorage::new();
    let mut props = Property::new();
    props.insert("name".to_string(), PropertyValue::String("Alice".to_string()));
    let node = Node::new(vec!["Person".to_string()], props);
    storage.create_node(&node).unwrap();
    let mut executor = QueryExecutor::new(storage);

    let query = parse_query("MATCH (:Person)").unwrap();
    let result = executor.execute(query).unwrap();

    match result {
        QueryResult::Nodes(nodes) => {
            assert_eq!(nodes.len(), 1);
            assert_eq!(nodes[0].id, node.id);
        }
        _ => panic!("Expected Nodes"),
    }
}

#[test]
fn test_show_nodes() {
    let mut storage = GraphStorage::new();
    let node1 = Node::new(vec!["Person".to_string()], Property::new());
    let node2 = Node::new(vec!["Person".to_string()], Property::new());
    storage.create_node(&node1).unwrap();
    storage.create_node(&node2).unwrap();
    let mut executor = QueryExecutor::new(storage);

    let query = parse_query("SHOW NODES").unwrap();
    let result = executor.execute(query).unwrap();

    match result {
        QueryResult::Nodes(nodes) => {
            assert_eq!(nodes.len(), 2);
        }
        _ => panic!("Expected Nodes"),
    }
}

#[test]
fn test_parse_create_node_no_props() {
    let query = parse_query("CREATE NODE (:Person)").unwrap();
    match query {
        Query::CreateNode { labels, properties } => {
            assert_eq!(labels, vec!["Person"]);
            assert!(properties.is_empty());
        }
        _ => panic!("Expected CreateNode"),
    }
}

#[test]
fn test_parse_match_nodes() {
    let query = parse_query("MATCH (:Person)").unwrap();
    match query {
        Query::MatchNodes { label, property_filter } => {
            assert_eq!(label, Some("Person".to_string()));
            assert_eq!(property_filter, None);
        }
        _ => panic!("Expected MatchNodes"),
    }
}

#[test]
fn test_parse_match_nodes_with_where() {
    let query = parse_query("MATCH (:Person) WHERE name = \"Alice\"").unwrap();
    match query {
        Query::MatchNodes { label, property_filter } => {
            assert_eq!(label, Some("Person".to_string()));
            assert_eq!(
                property_filter,
                Some(("name".to_string(), PropertyValue::String("Alice".to_string())))
            );
        }
        _ => panic!("Expected MatchNodes"),
    }
}

#[test]
fn test_parse_show_commands() {
    assert_eq!(parse_query("SHOW NODES").unwrap(), Query::ShowNodes);
    assert_eq!(parse_query("SHOW EDGES").unwrap(), Query::ShowEdges);
}

#[test]
fn test_parse_exit() {
    assert_eq!(parse_query("EXIT").unwrap(), Query::Exit);
    assert_eq!(parse_query("QUIT").unwrap(), Query::Exit);
}

#[test]
fn test_parse_help() {
    assert_eq!(parse_query("HELP").unwrap(), Query::Help);
}

#[test]
fn parse_create_node_with_properties() {
    let query = parse_query("CREATE NODE (:Person) {name: \"Alice\", age: 30, score: 9.5, ok: true, x: null}").unwrap();
    match query {
        Query::CreateNode { labels, properties } => {
            assert_eq!(labels, vec!["Person"]);
            assert_eq!(properties.get("name"), Some(&PropertyValue::String("Alice".to_string())));
            assert_eq!(properties.get("age"), Some(&PropertyValue::Integer(30)));
            assert_eq!(properties.get("score"), Some(&PropertyValue::Float("9.5".to_string())));
            assert_eq!(properties.get("ok"), Some(&PropertyValue::Boolean(true)));
            assert_eq!(properties.get("x"), Some(&PropertyValue::Null));
            assert_eq!(properties.len(), 5);
        }
        _ => panic!("Expected CreateNode"),
    }
}

#[test]
fn parse_errors_are_reported() {
    assert_eq!(parse_query("   ").unwrap_err(), "Empty query");
    assert_eq!(
        parse_query("DELETE everything").unwrap_err(),
        "Unknown query type. Type HELP for available commands."
    );
    assert_eq!(
        parse_query("CREATE NODE (:P) {bad}").unwrap_err(),
        "Invalid property format: 'bad'"
    );
    assert_eq!(
        parse_query("CREATE NODE (:P) {a: nope}").unwrap_err(),
        "Cannot parse property value: 'nope'"
    );
    assert_eq!(
        parse_query("CREATE EDGE (a) (b)").unwrap_err(),
        "Edge pattern must contain '->' (e.g., (source_id)-[LABEL]->(target_id))"
    );
    assert_eq!(
        parse_query("MATCH (:P) WHERE name").unwrap_err(),
        "WHERE clause must use '=' operator"
    );
    assert_eq!(
        parse_query("MATCH nothing").unwrap_err(),
        "Invalid MATCH pattern. Use (:Label) for nodes or -[:LABEL]-> for edges"
    );
}

#[test]
fn parse_match_edges_label() {
    assert_eq!(
        parse_query("MATCH -[:KNOWS]->").unwrap(),
        Query::MatchEdges { label: Some(":KNOWS".to_string()) }
    );
    assert_eq!(parse_query("MATCH -[]->").unwrap(), Query::MatchEdges { label: None });
}

#[test]
fn edge_to_missing_node_is_an_error_result() {
    let mut executor = QueryExecutor::new(GraphStorage::new());
    let q = parse_query("CREATE EDGE (a)-[KNOWS]->(b)").unwrap();
    match executor.execute(q).unwrap() {
        QueryResult::Error(m) => assert_eq!(m, "Source node 'a' does not exist"),
        _ => panic!("Expected Error"),
    }
    assert_eq!(executor.storage().get_all_edges().unwrap().len(), 0);
}

#[test]
fn format_lists_sorted_properties() {
    let mut props = Property::new();
    props.insert("name".to_string(), PropertyValue::String("Alice".to_string()));
    props.insert("age".to_string(), PropertyValue::Integer(30));
    let node = Node::new(vec!["Person".to_string(), "Employee".to_string()], props);
    let id = node.id.clone();
    let text = QueryResult::NodeCreated(node).format();
    assert_eq!(
        text,
        format!("Node created: {id} (labels: Person, Employee, properties: {{age: 30, name: \"Alice\"}})")
    );
    assert_eq!(QueryResult::Nodes(vec![]).format(), "No nodes found.");
    assert_eq!(QueryResult::Exit.format(), "Goodbye!");
    assert_eq!(QueryResult::Error("x".into()).format(), "Error: x");
}

#[test]
fn test_create_node() {
    let mut executor = QueryExecutor::new(GraphStorage::new());
    let query = parse_query("CREATE NODE (:Person) {name: \"Alice\"}").unwrap();
    let result = executor.execute(query).unwrap();
    match result {
        QueryResult::NodeCreated(node) => {
            assert_eq!(node.labels, vec!["Person"]);
            assert_eq!(node.properties.get("name"), Some(&PropertyValue::String("Alice".to_string())));
        }
        _ => panic!("Expected NodeCreated"),
    }
}

#[test]
fn test_parse_create_node() {
    let query = parse_query("CREATE NODE (:Person) {name: \"Alice\", age: 30}").unwrap();
    match query {
        Query::CreateNode { labels, properties } => {
            assert_eq!(labels, vec!["Person"]);
            assert_eq!(properties.get("name"), Some(&PropertyValue::String("Alice".to_string())));
            assert_eq!(properties.get("age"), Some(&PropertyValue::Integer(30)));
        }
        _ => panic!("Expected CreateNode"),
    }
}

#[test]
fn test_parse_create_edge() {
    let query = parse_query("CREATE EDGE (node1)-[KNOWS]->(node2) {since: 2020}").unwrap();
    match query {
        Query::CreateEdge { source_id, target_id, label, properties } => {
            assert_eq!(source_id, "node1");
            assert_eq!(target_id, "node2");
            assert_eq!(label, "KNOWS");
            assert_eq!(properties.get("since"), Some(&PropertyValue::Integer(2020)));
        }
        _ => panic!("Expected CreateEdge"),
    }
}
