//! Cycle detection and topological order.

use trueno_graph::{is_cyclic, toposort, CsrGraph, GraphError, NodeId};

fn graph_of(list: &[(u32, u32)]) -> CsrGraph {
    let edges: Vec<_> =
        list.iter().map(|&(s, t)| (NodeId(s), NodeId(t), 1.0f32.to_bits())).collect();
    CsrGraph::from_edge_list(&edges).unwrap()
}

#[test]
fn test_empty_graph_not_cyclic() {
    let graph = CsrGraph::new();
    assert!(!is_cyclic(&graph));
}

#[test]
fn test_empty_graph_toposort() {
    let graph = CsrGraph::new();
    let order = toposort(&graph).unwrap();
    assert!(order.is_empty());
}

#[test]
fn test_single_node_not_cyclic() {
    let mut graph = CsrGraph::new();
    graph.add_edge(NodeId(0), NodeId(1), 1.0f32.to_bits()).unwrap();
    assert!(!is_cyclic(&graph));
}

#[test]
fn test_self_loop_is_cyclic() {
    let graph = graph_of(&[(0, 0)]);
    assert!(is_cyclic(&graph));
}

#[test]
fn test_simple_dag_not_cyclic() {
    let graph = graph_of(&[(0, 1), (1, 2)]);
    assert!(!is_cyclic(&graph));
}

#[test]
fn test_simple_cycle() {
    let graph = graph_of(&[(0, 1), (1, 2), (2, 0)]);
    assert!(is_cyclic(&graph));
}

#[test]
fn test_diamond_dag_not_cyclic() {
    let graph = graph_of(&[(0, 1), (0, 2), (1, 3), (2, 3)]);
    assert!(!is_cyclic(&graph));
}

#[test]
fn test_toposort_simple_chain() {
    let graph = graph_of(&[(0, 1), (1, 2)]);

    let order = toposort(&graph).unwrap();
    assert_eq!(order, vec![NodeId(0), NodeId(1), NodeId(2)]);
}

#[test]
fn test_toposort_diamond() {
    let graph = graph_of(&[(0, 1), (0, 2), (1, 3), (2, 3)]);

    let order = toposort(&graph).unwrap();

    let pos = |n: u32| order.iter().position(|&x| x == NodeId(n)).unwrap();
    assert!(pos(0) < pos(1));
    assert!(pos(0) < pos(2));
    assert!(pos(1) < pos(3));
    assert!(pos(2) < pos(3));
}

#[test]
fn test_toposort_fails_on_cycle() {
    let graph = graph_of(&[(0, 1), (1, 2), (2, 0)]);

    let result = toposort(&graph);
    assert!(result.is_err());
    assert!(result.unwrap_err().message().contains("Cycle"));
}

#[test]
fn test_disconnected_components() {
    let graph = graph_of(&[(0, 1), (2, 3)]);

    assert!(!is_cyclic(&graph));

    let order = toposort(&graph).unwrap();
    assert_eq!(order.len(), 4);

    let pos = |n: u32| order.iter().position(|&x| x == NodeId(n)).unwrap();
    assert!(pos(0) < pos(1));
    assert!(pos(2) < pos(3));
}

#[test]
fn test_complex_dag() {
    let graph = graph_of(&[(0, 1), (0, 2), (0, 3), (1, 4), (2, 4), (3, 4)]);

    assert!(!is_cyclic(&graph));

    let order = toposort(&graph).unwrap();
    assert_eq!(order.len(), 5);

    let pos = |n: u32| order.iter().position(|&x| x == NodeId(n)).unwrap();
    assert!(pos(0) < pos(1));
    assert!(pos(0) < pos(2));
    assert!(pos(0) < pos(3));
    assert!(pos(1) < pos(4));
    assert!(pos(2) < pos(4));
    assert!(pos(3) < pos(4));
}

#[test]
fn test_two_node_cycle() {
    let graph = graph_of(&[(0, 1), (1, 0)]);
    assert!(is_cyclic(&graph));
}

#[test]
fn test_cycle_in_subgraph() {
    let graph = graph_of(&[(0, 1), (1, 2), (2, 1), (3, 4)]);
    assert!(is_cyclic(&graph));
}

#[test]
fn toposort_reports_cycle_detected() {
    let graph = graph_of(&[(0, 1), (1, 2), (2, 0)]);
    assert_eq!(toposort(&graph), Err(GraphError::CycleDetected));
    assert_eq!(toposort(&graph_of(&[(3, 3)])), Err(GraphError::CycleDetected));
}

#[test]
fn toposort_puts_every_edge_forward() {
    let list = [(5, 2), (5, 0), (4, 0), (4, 1), (2, 3), (3, 1), (6, 6 - 1), (0, 7)];
    let graph = graph_of(&list);
    let order = toposort(&graph).unwrap();
    assert_eq!(order.len(), graph.num_nodes());
    let pos = |n: u32| order.iter().position(|&x| x == NodeId(n)).unwrap();
    for &(s, t) in &list {
        assert!(pos(s) < pos(t), "edge {s} -> {t}");
    }
    let mut seen: Vec<u32> = order.iter().map(|n| n.0).collect();
    seen.sort_unstable();
    assert_eq!(seen, (0..8).collect::<Vec<u32>>());
}

#[test]
fn parallel_edges_do_not_make_a_cycle() {
    let graph = graph_of(&[(0, 1), (0, 1), (1, 2), (0, 2)]);
    assert!(!is_cyclic(&graph));
    assert_eq!(toposort(&graph).unwrap(), vec![NodeId(0), NodeId(1), NodeId(2)]);
}
