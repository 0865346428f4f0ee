//! The edge table, the node table, and the way back.

use trueno_graph::{CsrGraph, NodeId};

fn w(x: f32) -> u32 {
    x.to_bits()
}

#[test]
fn edge_rows_follow_the_forward_layout() {
    let mut graph = CsrGraph::new();
    graph.add_edge(NodeId(2), NodeId(0), w(1.5)).unwrap();
    graph.add_edge(NodeId(0), NodeId(1), w(2.5)).unwrap();
    graph.add_edge(NodeId(2), NodeId(2), w(3.5)).unwrap();
    graph.add_edge(NodeId(0), NodeId(1), w(4.5)).unwrap();
    assert_eq!(graph.edge_rows(), vec![
        (NodeId(0), NodeId(1), w(2.5)),
        (NodeId(0), NodeId(1), w(4.5)),
        (NodeId(2), NodeId(0), w(1.5)),
        (NodeId(2), NodeId(2), w(3.5)),
    ]);
    assert!(CsrGraph::new().edge_rows().is_empty());
}

#[test]
fn node_rows_name_every_node() {
    let mut graph = CsrGraph::new();
    graph.add_edge(NodeId(0), NodeId(12), w(1.0)).unwrap();
    graph.set_node_name(NodeId(0), "main".to_string());
    graph.set_node_name(NodeId(3), "".to_string());
    graph.set_node_name(NodeId(40), "beyond".to_string());
    let rows = graph.node_rows();
    assert_eq!(rows.len(), 13);
    assert_eq!(rows[0], (NodeId(0), "main".to_string()));
    assert_eq!(rows[1], (NodeId(1), "node_1".to_string()));
    assert_eq!(rows[3], (NodeId(3), "".to_string()));
    assert_eq!(rows[9], (NodeId(9), "node_9".to_string()));
    assert_eq!(rows[10], (NodeId(10), "node_10".to_string()));
    assert_eq!(rows[12], (NodeId(12), "node_12".to_string()));
    assert!(CsrGraph::new().node_rows().is_empty());
}

#[test]
fn default_names_are_decimal() {
    let graph =
        CsrGraph::from_edge_list(&[(NodeId(0), NodeId(1_000_020), w(1.0))]).unwrap();
    let rows = graph.node_rows();
    assert_eq!(rows[100].1, "node_100");
    assert_eq!(rows[999_999].1, "node_999999");
    assert_eq!(rows[1_000_020].1, "node_1000020");
}

#[test]
fn round_trip_preserves_the_graph() {
    let list = [(3, 1, 0.5), (0, 3, 2.0), (3, 1, 3.0), (2, 2, 4.0), (0, 1, 5.0), (5, 0, 6.0)];
    let mut graph = CsrGraph::new();
    for &(s, t, x) in &list {
        graph.add_edge(NodeId(s), NodeId(t), w(x)).unwrap();
    }
    graph.set_node_name(NodeId(0), "main".to_string());
    graph.set_node_name(NodeId(5), "tail".to_string());

    let loaded = CsrGraph::from_rows(&graph.edge_rows(), &graph.node_rows()).unwrap();

    assert_eq!(loaded.num_nodes(), graph.num_nodes());
    assert_eq!(loaded.num_edges(), graph.num_edges());
    assert_eq!(loaded.csr_components(), graph.csr_components());
    assert_eq!(loaded.get_node_name(NodeId(0)), Some("main"));
    assert_eq!(loaded.get_node_name(NodeId(5)), Some("tail"));
    assert_eq!(loaded.get_node_name(NodeId(4)), Some("node_4"));
    assert_eq!(loaded.get_node_name(NodeId(6)), None);
}

#[test]
fn round_trip_of_the_empty_graph() {
    let graph = CsrGraph::new();
    let loaded = CsrGraph::from_rows(&graph.edge_rows(), &graph.node_rows()).unwrap();
    assert_eq!(loaded.num_nodes(), 0);
    assert_eq!(loaded.num_edges(), 0);
    assert_eq!(loaded.csr_components().0, &[0]);
}

#[test]
fn later_node_rows_override_earlier_ones() {
    let edges = [(NodeId(0), NodeId(1), w(1.0))];
    let nodes = [
        (NodeId(1), "first".to_string()),
        (NodeId(0), "zero".to_string()),
        (NodeId(1), "second".to_string()),
    ];
    let graph = CsrGraph::from_rows(&edges, &nodes).unwrap();
    assert_eq!(graph.get_node_name(NodeId(0)), Some("zero"));
    assert_eq!(graph.get_node_name(NodeId(1)), Some("second"));
}
