use graph_match::attributes::AttributeMap;
use graph_match::graph::Graph;

#[test]
fn create_small_graph() {
    let mut graph = Graph { nodes: vec![], edges: vec![] };
    let node0 = graph.add_node("node0".to_string(), None);
    let node1 = graph.add_node("node1".to_string(), None);
    graph.add_edge(node0, node1, "edge0".to_string(), None);

    assert_eq!(2, graph.nodes.len());
    assert_eq!(1, graph.edges.len());
    match graph.nodes[0].first_outgoing_edge {
        Some(index) => assert_eq!(1, graph.edges[index].target),
        None => assert!(false),
    }
}

#[test]
fn create_list_graph() {
    let mut graph = Graph { nodes: vec![], edges: vec![] };
    let node0 = graph.add_node("node0".to_string(), None);
    let node1 = graph.add_node("node1".to_string(), None);
    let node2 = graph.add_node("node2".to_string(), None);
    let node3 = graph.add_node("node3".to_string(), None);
    graph.add_edge(node0, node1, "edge0".to_string(), None);
    graph.add_edge(node1, node2, "edge1".to_string(), None);
    graph.add_edge(node2, node3, "edge2".to_string(), None);

    let mut targets = vec![];
    for e in graph.edges {
        targets.push(e.target);
    }
    assert_eq!(vec![1, 2, 3], targets);
}

#[test]
fn list_node_edges() {
    let mut graph = Graph { nodes: vec![], edges: vec![] };
    let node0 = graph.add_node("node0".to_string(), None);
    graph.add_edge(node0, node0, "edge0".to_string(), None);
    graph.add_edge(node0, node0, "edge1".to_string(), None);
    graph.add_edge(node0, node0, "edge2".to_string(), None);
    let mut targets = vec![];
    let mut successors = graph.successors(0);
    loop {
        match successors.next() {
            Some(edge) => targets.push(edge),
            None => break,
        }
    }
    assert_eq!(vec![0, 0, 0], targets);
}

#[test]
fn node_attributes() {
    let mut graph = Graph { nodes: vec![], edges: vec![] };

    let mut attributes = AttributeMap::new();
    attributes.insert("key".to_string(), "value".to_string());

    let node0 = graph.add_node("node0".to_string(), Some(attributes));
    match graph.nodes[node0].attributes {
        Some(ref attrs) => {
            match attrs.get(&"key".to_string()) {
                Some(value) => assert_eq!(&"value".to_string(), value),
                None => assert!(false),
            }
        },
        None => assert!(false),
    }
}

#[test]
fn edge_attributes() {
    let mut graph = Graph { nodes: vec![], edges: vec![] };

    let mut attributes = AttributeMap::new();
    attributes.insert("key".to_string(), "value".to_string());

    let node0 = graph.add_node("node0".to_string(), None);
    graph.add_edge(node0, node0, "edge0".to_string(), Some(attributes));
    match graph.edges[0].attributes {
        Some(ref attrs) => {
            match attrs.get(&"key".to_string()) {
                Some(value) => assert_eq!(&"value".to_string(), value),
                None => assert!(false),
            }
        },
        None => assert!(false),
    }
}

#[test]
fn node_edges() {
    let mut graph = Graph { nodes: vec![], edges: vec![] };
    let node0 = graph.add_node("node0".to_string(), None);
    graph.add_edge(node0, node0, "edge0".to_string(), None);
    graph.add_edge(node0, node0, "edge1".to_string(), None);
    graph.add_edge(node0, node0, "edge1".to_string(), None);

    assert_eq!(vec![2, 1, 0], graph.edges_for_node(node0));
}
