use graph_match::attributes::AttributeMap;
use graph_match::graph::Graph;
use graph_match::matching::{values_match, EqualityRequirement};
use graph_match::node::Node;

#[test]
fn wildcard_absent_query_attributes() {
    let mut attributes = AttributeMap::new();
    attributes.insert("key".to_string(), "value".to_string());

    let query = Node {
        identifier: "q".to_string(),
        attributes: None,
        first_outgoing_edge: None,
    };
    let candidate = Node {
        identifier: "c".to_string(),
        attributes: Some(attributes),
        first_outgoing_edge: None,
    };
    assert!(query.matches(&candidate, &EqualityRequirement::Complete));
    assert!(query.matches(&candidate, &EqualityRequirement::Contains));
}

#[test]
fn wildcard_empty_query_attributes() {
    let query = Node {
        identifier: "q".to_string(),
        attributes: Some(AttributeMap::new()),
        first_outgoing_edge: None,
    };
    let bare = Node {
        identifier: "c".to_string(),
        attributes: None,
        first_outgoing_edge: None,
    };
    assert!(query.matches(&bare, &EqualityRequirement::Complete));
}

#[test]
fn nonempty_query_rejects_bare_candidate() {
    let mut attributes = AttributeMap::new();
    attributes.insert("key".to_string(), "value".to_string());

    let query = Node {
        identifier: "q".to_string(),
        attributes: Some(attributes),
        first_outgoing_edge: None,
    };
    let bare = Node {
        identifier: "c".to_string(),
        attributes: None,
        first_outgoing_edge: None,
    };
    assert_eq!(false, query.matches(&bare, &EqualityRequirement::Complete));
}

#[test]
fn extra_candidate_keys_ignored() {
    let mut query_attributes = AttributeMap::new();
    query_attributes.insert("key".to_string(), "value".to_string());
    let mut candidate_attributes = AttributeMap::new();
    candidate_attributes.insert("key".to_string(), "value".to_string());
    candidate_attributes.insert("other".to_string(), "unrelated".to_string());

    let query = Node {
        identifier: "q".to_string(),
        attributes: Some(query_attributes),
        first_outgoing_edge: None,
    };
    let candidate = Node {
        identifier: "c".to_string(),
        attributes: Some(candidate_attributes),
        first_outgoing_edge: None,
    };
    assert!(query.matches(&candidate, &EqualityRequirement::Complete));
}

#[test]
fn values_match_complete_is_exact() {
    assert!(values_match(
        &"value".to_string(),
        &"value".to_string(),
        &EqualityRequirement::Complete
    ));
    assert_eq!(
        false,
        values_match(
            &"the values".to_string(),
            &"value".to_string(),
            &EqualityRequirement::Complete
        )
    );
}

#[test]
fn values_match_contains_substring() {
    assert!(values_match(
        &"the values".to_string(),
        &"value".to_string(),
        &EqualityRequirement::Contains
    ));
    assert_eq!(
        false,
        values_match(
            &"value".to_string(),
            &"the values".to_string(),
            &EqualityRequirement::Contains
        )
    );
    assert!(values_match(
        &"anything".to_string(),
        &"".to_string(),
        &EqualityRequirement::Contains
    ));
}

#[test]
fn attribute_map_insert_replaces() {
    let mut attributes = AttributeMap::new();
    attributes.insert("key".to_string(), "first".to_string());
    attributes.insert("key".to_string(), "second".to_string());
    match attributes.get(&"key".to_string()) {
        Some(value) => assert_eq!(&"second".to_string(), value),
        None => assert!(false),
    }
    assert_eq!(true, attributes.get(&"missing".to_string()).is_none());
}

#[test]
fn single_node_query_matches_each_node() {
    let mut target = Graph { nodes: vec![], edges: vec![] };
    target.add_node("node0".to_string(), None);
    target.add_node("node1".to_string(), None);
    target.add_node("node2".to_string(), None);

    let mut query = Graph { nodes: vec![], edges: vec![] };
    query.add_node("q".to_string(), None);

    let results = graph_match::match_graph(
        &query,
        0,
        &target,
        None,
        &EqualityRequirement::Complete,
    );
    assert_eq!(3, results.len());
    for (i, result) in results.iter().enumerate() {
        assert_eq!(1, result.list.len());
        assert_eq!(None, result.list[0].from_edge);
        assert_eq!(i, result.list[0].node);
    }
}

#[test]
fn results_are_complete_and_ascending() {
    let mut target = Graph { nodes: vec![], edges: vec![] };
    let node0 = target.add_node("a".to_string(), None);
    let node1 = target.add_node("b".to_string(), None);
    let node2 = target.add_node("c".to_string(), None);
    let node3 = target.add_node("d".to_string(), None);
    target.add_edge(node0, node1, "left".to_string(), None);
    target.add_edge(node2, node3, "right".to_string(), None);

    let mut query = Graph { nodes: vec![], edges: vec![] };
    let q0 = query.add_node("q0".to_string(), None);
    let q1 = query.add_node("q1".to_string(), None);
    query.add_edge(q0, q1, "e".to_string(), None);

    let results = graph_match::match_graph(
        &query,
        0,
        &target,
        None,
        &EqualityRequirement::Complete,
    );
    assert_eq!(2, results.len());
    for result in results.iter() {
        assert_eq!(query.nodes.len(), result.list.len());
    }
    assert!(results[0].list[0].node < results[1].list[0].node);
}

#[test]
fn first_compatible_edge_is_committed() {
    // Two parallel edges from the root; the chain is scanned newest first,
    // and the first compatible edge decides the match.
    let mut target = Graph { nodes: vec![], edges: vec![] };
    let node0 = target.add_node("root".to_string(), None);
    let node1 = target.add_node("first_added".to_string(), None);
    let node2 = target.add_node("last_added".to_string(), None);
    target.add_edge(node0, node1, "edge0".to_string(), None);
    target.add_edge(node0, node2, "edge1".to_string(), None);

    let mut query = Graph { nodes: vec![], edges: vec![] };
    let q0 = query.add_node("q0".to_string(), None);
    let q1 = query.add_node("q1".to_string(), None);
    query.add_edge(q0, q1, "e".to_string(), None);

    let results = graph_match::match_graph(
        &query,
        0,
        &target,
        Some(0),
        &EqualityRequirement::Complete,
    );
    assert_eq!(1, results.len());
    // The newest edge (index 1, to node 2) wins.
    assert_eq!(Some(1), results[0].list[1].from_edge);
    assert_eq!(2, results[0].list[1].node);
}
