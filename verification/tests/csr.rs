//! The CSR store: construction, neighbour queries, names.

use trueno_graph::{CsrGraph, GraphError, NodeId};

fn w(x: f32) -> u32 {
    x.to_bits()
}

fn edges_of(list: &[(u32, u32, f32)]) -> Vec<(NodeId, NodeId, u32)> {
    list.iter().map(|&(s, t, x)| (NodeId(s), NodeId(t), w(x))).collect()
}

fn weights_of(bits: &[u32]) -> Vec<f32> {
    bits.iter().map(|&b| f32::from_bits(b)).collect()
}

#[test]
fn csr_test_empty_graph() {
    let graph = CsrGraph::new();
    assert_eq!(graph.num_nodes(), 0);
    assert_eq!(graph.num_edges(), 0);
}

#[test]
fn test_from_edge_list_simple() {
    let edges = edges_of(&[(0, 1, 1.0), (0, 2, 1.0), (1, 2, 1.0)]);

    let graph = CsrGraph::from_edge_list(&edges).unwrap();

    assert_eq!(graph.num_nodes(), 3);
    assert_eq!(graph.num_edges(), 3);

    let (row_offsets, col_indices, edge_weights) = graph.csr_components();
    assert_eq!(row_offsets, &[0, 2, 3, 3]);
    assert_eq!(col_indices, &[1, 2, 2]);
    assert_eq!(weights_of(edge_weights), vec![1.0, 1.0, 1.0]);
}

#[test]
fn test_outgoing_neighbors() {
    let edges = edges_of(&[(0, 1, 1.0), (0, 2, 2.0)]);

    let graph = CsrGraph::from_edge_list(&edges).unwrap();

    let neighbors = graph.outgoing_neighbors(NodeId(0)).unwrap();
    assert_eq!(neighbors, &[1, 2]);

    let neighbors = graph.outgoing_neighbors(NodeId(1)).unwrap();
    let empty: &[u32] = &[];
    assert_eq!(neighbors, empty);
}

#[test]
fn test_incoming_neighbors() {
    let edges = edges_of(&[(0, 2, 1.0), (1, 2, 1.0)]);

    let graph = CsrGraph::from_edge_list(&edges).unwrap();

    let callers = graph.incoming_neighbors(NodeId(2)).unwrap();
    assert_eq!(callers.len(), 2);
    assert!(callers.contains(&0));
    assert!(callers.contains(&1));
}

#[test]
fn test_reverse_csr_structure() {
    let edges = edges_of(&[(0, 1, 1.0), (0, 2, 2.0), (1, 2, 3.0)]);

    let graph = CsrGraph::from_edge_list(&edges).unwrap();

    let empty: &[u32] = &[];
    assert_eq!(graph.incoming_neighbors(NodeId(0)).unwrap(), empty);
    assert_eq!(graph.incoming_neighbors(NodeId(1)).unwrap(), &[0]);

    let node2_incoming = graph.incoming_neighbors(NodeId(2)).unwrap();
    assert_eq!(node2_incoming.len(), 2);
    assert!(node2_incoming.contains(&0));
    assert!(node2_incoming.contains(&1));
}

#[test]
fn test_reverse_csr_multi_edges() {
    let edges = edges_of(&[(0, 1, 1.0), (0, 1, 2.0), (2, 1, 3.0)]);

    let graph = CsrGraph::from_edge_list(&edges).unwrap();

    let incoming = graph.incoming_neighbors(NodeId(1)).unwrap();
    assert_eq!(incoming.len(), 3);

    let count_0 = incoming.iter().filter(|&&x| x == 0).count();
    let count_2 = incoming.iter().filter(|&&x| x == 2).count();

    assert_eq!(count_0, 2, "Should have 2 edges from node 0");
    assert_eq!(count_2, 1, "Should have 1 edge from node 2");
}

#[test]
fn test_reverse_csr_with_add_edge() {
    let mut graph = CsrGraph::new();

    graph.add_edge(NodeId(0), NodeId(1), w(1.0)).unwrap();
    graph.add_edge(NodeId(2), NodeId(1), w(2.0)).unwrap();

    let incoming = graph.incoming_neighbors(NodeId(1)).unwrap();
    assert_eq!(incoming.len(), 2);
    assert!(incoming.contains(&0));
    assert!(incoming.contains(&2));

    graph.add_edge(NodeId(3), NodeId(1), w(3.0)).unwrap();

    let incoming = graph.incoming_neighbors(NodeId(1)).unwrap();
    assert_eq!(incoming.len(), 3);
    assert!(incoming.contains(&0));
    assert!(incoming.contains(&2));
    assert!(incoming.contains(&3));
}

#[test]
fn test_add_edge_dynamic() {
    let mut graph = CsrGraph::new();

    graph.add_edge(NodeId(0), NodeId(1), w(1.0)).unwrap();
    graph.add_edge(NodeId(0), NodeId(2), w(1.0)).unwrap();

    assert_eq!(graph.num_nodes(), 3);
    assert_eq!(graph.num_edges(), 2);

    let neighbors = graph.outgoing_neighbors(NodeId(0)).unwrap();
    assert_eq!(neighbors, &[1, 2]);
}

#[test]
fn test_node_names() {
    let mut graph = CsrGraph::new();
    graph.add_edge(NodeId(0), NodeId(1), w(1.0)).unwrap();

    graph.set_node_name(NodeId(0), "main".to_string());
    graph.set_node_name(NodeId(1), "parse_args".to_string());

    assert_eq!(graph.get_node_name(NodeId(0)), Some("main"));
    assert_eq!(graph.get_node_name(NodeId(1)), Some("parse_args"));
}

#[test]
fn test_csr_components() {
    let edges = edges_of(&[(0, 1, 1.0), (0, 2, 2.0)]);

    let graph = CsrGraph::from_edge_list(&edges).unwrap();
    let (row_offsets, col_indices, weights) = graph.csr_components();

    assert_eq!(row_offsets, &[0, 2, 2, 2]);
    assert_eq!(col_indices, &[1, 2]);
    assert_eq!(weights_of(weights), vec![1.0, 2.0]);
}

#[test]
fn test_empty_graph_invariants() {
    let graph = CsrGraph::new();

    let (row_offsets, col_indices, edge_weights) = graph.csr_components();

    assert_eq!(row_offsets, &[0]);
    assert_eq!(col_indices.len(), 0);
    assert_eq!(edge_weights.len(), 0);
    assert_eq!(graph.num_nodes(), 0);
    assert_eq!(graph.num_edges(), 0);
}

#[test]
fn test_single_edge_invariants() {
    let edges = edges_of(&[(0, 1, 1.0)]);
    let graph = CsrGraph::from_edge_list(&edges).unwrap();

    let (row_offsets, col_indices, edge_weights) = graph.csr_components();

    assert_eq!(graph.num_nodes(), 2);
    assert_eq!(row_offsets, &[0, 1, 1]);
    assert_eq!(col_indices, &[1]);
    assert_eq!(weights_of(edge_weights), vec![1.0]);
}

#[test]
fn test_simple_call_graph() {
    let mut graph = CsrGraph::new();

    graph.add_edge(NodeId(0), NodeId(1), w(1.0)).unwrap();
    graph.add_edge(NodeId(0), NodeId(2), w(1.0)).unwrap();
    graph.add_edge(NodeId(0), NodeId(3), w(1.0)).unwrap();
    graph.add_edge(NodeId(1), NodeId(2), w(1.0)).unwrap();

    graph.set_node_name(NodeId(0), "main".to_string());
    graph.set_node_name(NodeId(1), "parse_args".to_string());
    graph.set_node_name(NodeId(2), "validate".to_string());
    graph.set_node_name(NodeId(3), "execute".to_string());

    let main_callees = graph.outgoing_neighbors(NodeId(0)).unwrap();
    assert_eq!(main_callees, &[1, 2, 3]);

    let parse_args_callees = graph.outgoing_neighbors(NodeId(1)).unwrap();
    assert_eq!(parse_args_callees, &[2]);

    let validate_callers = graph.incoming_neighbors(NodeId(2)).unwrap();
    assert_eq!(validate_callers, vec![0, 1]);

    assert_eq!(graph.num_nodes(), 4);
    assert_eq!(graph.num_edges(), 4);
}

#[test]
fn test_from_edge_list_performance() {
    let edges: Vec<_> = (0..1000).map(|i| (NodeId(i), NodeId(i + 1), w(1.0))).collect();

    let graph = CsrGraph::from_edge_list(&edges).unwrap();

    assert_eq!(graph.num_nodes(), 1001);
    assert_eq!(graph.num_edges(), 1000);

    assert_eq!(graph.outgoing_neighbors(NodeId(0)).unwrap(), &[1]);
    assert_eq!(graph.outgoing_neighbors(NodeId(999)).unwrap(), &[1000]);
}

#[test]
fn test_csr_components_for_aprender() {
    let edges = edges_of(&[(0, 1, 1.0), (0, 2, 2.0), (1, 2, 3.0)]);

    let graph = CsrGraph::from_edge_list(&edges).unwrap();
    let (row_offsets, col_indices, weights) = graph.csr_components();

    assert_eq!(row_offsets, &[0, 2, 3, 3]);
    assert_eq!(col_indices, &[1, 2, 2]);
    assert_eq!(weights_of(weights), vec![1.0, 2.0, 3.0]);
}

#[test]
fn test_csr_graph_methods_exist() {
    let edges = edges_of(&[(0, 1, 1.0)]);
    let graph = CsrGraph::from_edge_list(&edges).unwrap();

    let _ = graph.num_nodes();
    let _ = graph.num_edges();
    let _ = graph.outgoing_neighbors(NodeId(0));
    let _ = graph.incoming_neighbors(NodeId(0));
}

#[test]
fn neighbor_queries_refuse_unknown_nodes() {
    let graph = CsrGraph::from_edge_list(&edges_of(&[(0, 1, 1.0)])).unwrap();
    assert_eq!(graph.outgoing_neighbors(NodeId(2)), Err(GraphError::NodeOutOfRange));
    assert_eq!(graph.incoming_neighbors(NodeId(7)), Err(GraphError::NodeOutOfRange));
    assert_eq!(CsrGraph::new().outgoing_neighbors(NodeId(0)), Err(GraphError::NodeOutOfRange));
}

#[test]
fn adjacency_pairs_targets_with_weights() {
    let graph = CsrGraph::from_edge_list(&edges_of(&[(0, 1, 1.5), (1, 0, 2.5), (0, 2, 0.25)]))
        .unwrap();
    let (targets, weights) = graph.adjacency(NodeId(0));
    assert_eq!(targets, &[1, 2]);
    assert_eq!(weights_of(weights), vec![1.5, 0.25]);
    let (targets, weights) = graph.adjacency(NodeId(9));
    assert!(targets.is_empty());
    assert!(weights.is_empty());
}

#[test]
fn add_edge_keeps_insertion_order_in_both_layouts() {
    let mut graph = CsrGraph::new();
    graph.add_edge(NodeId(1), NodeId(0), w(1.0)).unwrap();
    graph.add_edge(NodeId(0), NodeId(0), w(2.0)).unwrap();
    graph.add_edge(NodeId(1), NodeId(0), w(3.0)).unwrap();
    graph.add_edge(NodeId(0), NodeId(2), w(4.0)).unwrap();

    let (row_offsets, col_indices, weights) = graph.csr_components();
    assert_eq!(row_offsets, &[0, 2, 4, 4]);
    assert_eq!(col_indices, &[0, 2, 0, 0]);
    assert_eq!(weights_of(weights), vec![2.0, 4.0, 1.0, 3.0]);
    assert_eq!(graph.incoming_neighbors(NodeId(0)).unwrap(), &[1, 0, 1]);
    assert_eq!(graph.incoming_neighbors(NodeId(2)).unwrap(), &[0]);
}

#[test]
fn add_edge_and_batch_build_agree() {
    let list = [(3, 1, 1.0), (0, 3, 2.0), (3, 1, 3.0), (2, 2, 4.0), (0, 1, 5.0)];
    let batch = CsrGraph::from_edge_list(&edges_of(&list)).unwrap();
    let mut grown = CsrGraph::new();
    for &(s, t, x) in &list {
        grown.add_edge(NodeId(s), NodeId(t), w(x)).unwrap();
    }
    assert_eq!(batch.csr_components(), grown.csr_components());
    for v in 0..4 {
        assert_eq!(
            batch.incoming_neighbors(NodeId(v)).unwrap(),
            grown.incoming_neighbors(NodeId(v)).unwrap()
        );
    }
}

#[test]
fn widening_adds_nodes_without_edges() {
    let mut graph = CsrGraph::new();
    graph.add_edge(NodeId(4), NodeId(1), w(1.0)).unwrap();
    assert_eq!(graph.num_nodes(), 5);
    let (row_offsets, _, _) = graph.csr_components();
    assert_eq!(row_offsets, &[0, 0, 0, 0, 0, 1]);
    let empty: &[u32] = &[];
    assert_eq!(graph.outgoing_neighbors(NodeId(2)).unwrap(), empty);
}

#[test]
fn names_are_metadata_only() {
    let mut graph = CsrGraph::default();
    graph.set_node_name(NodeId(5), "ghost".to_string());
    assert_eq!(graph.num_nodes(), 0);
    assert_eq!(graph.get_node_name(NodeId(5)), Some("ghost"));
    assert_eq!(graph.get_node_name(NodeId(0)), None);
    graph.set_node_name(NodeId(5), "renamed".to_string());
    assert_eq!(graph.get_node_name(NodeId(5)), Some("renamed"));
}

fn build_test_graph() -> CsrGraph {
    CsrGraph::from_edge_list(&edges_of(&[
        (0, 1, 1.0),
        (0, 2, 1.0),
        (1, 3, 1.0),
        (1, 4, 1.0),
        (2, 4, 1.0),
    ]))
    .unwrap()
}

#[test]
fn test_csr_graph_construction() {
    let graph = build_test_graph();

    assert!(graph.num_nodes() >= 5, "Graph should have at least 5 nodes");
    assert_eq!(graph.num_edges(), 5, "Graph should have 5 edges");
}

#[test]
fn test_csr_outgoing_neighbors() {
    let graph = build_test_graph();

    let neighbors = graph.outgoing_neighbors(NodeId(0)).unwrap();
    assert_eq!(neighbors.len(), 2);

    let neighbors = graph.outgoing_neighbors(NodeId(1)).unwrap();
    assert_eq!(neighbors.len(), 2);

    let neighbors = graph.outgoing_neighbors(NodeId(3)).unwrap();
    assert_eq!(neighbors.len(), 0);
}

#[test]
fn test_csr_incoming_neighbors() {
    let graph = build_test_graph();

    let callers = graph.incoming_neighbors(NodeId(4)).unwrap();
    assert_eq!(callers.len(), 2, "Node 4 should have 2 incoming edges");

    let callers = graph.incoming_neighbors(NodeId(0)).unwrap();
    assert_eq!(callers.len(), 0, "Node 0 should have no incoming edges");
}

/// Edge lists from a fixed pseudo-random sequence.
fn sample_edge_lists() -> Vec<Vec<(u32, u32, f32)>> {
    let mut x: u32 = 2_463_534_242;
    let mut next = move |bound: u32| {
        x ^= x << 13;
        x ^= x >> 17;
        x ^= x << 5;
        x % bound
    };
    let mut lists = vec![vec![], vec![(0, 0, 1.0)], vec![(7, 7, 0.5), (7, 7, 0.5)]];
    for round in 0..40u32 {
        let nodes = 1 + next(30);
        let count = next(90);
        let mut list = Vec::new();
        for _ in 0..count {
            list.push((next(nodes), next(nodes), (next(400) as f32) / 4.0));
        }
        if round % 5 == 0 {
            list.push((nodes + next(20), 0, 1.0));
        }
        lists.push(list);
    }
    lists
}

fn check_invariants(graph: &CsrGraph) {
    let n = graph.num_nodes();
    let e = graph.num_edges();
    let (row_off, col_idx, weights) = graph.csr_components();
    assert_eq!(row_off.len(), n + 1);
    assert_eq!(row_off[0], 0);
    assert_eq!(row_off[n] as usize, e);
    assert!(row_off.windows(2).all(|p| p[0] <= p[1]));
    assert_eq!(col_idx.len(), e);
    assert_eq!(weights.len(), e);
    assert!(col_idx.iter().all(|&c| (c as usize) < n));

    // The reverse layout holds every edge as often as the forward layout.
    let mut forward = Vec::new();
    let mut incoming_total = 0;
    for u in 0..n as u32 {
        let (targets, weights) = graph.adjacency(NodeId(u));
        assert_eq!(targets, graph.outgoing_neighbors(NodeId(u)).unwrap());
        for (&v, &w) in targets.iter().zip(weights) {
            forward.push((u, v, w));
        }
        let sources = graph.incoming_neighbors(NodeId(u)).unwrap();
        assert!(sources.iter().all(|&s| (s as usize) < n));
        incoming_total += sources.len();
    }
    assert_eq!(incoming_total, e);
    for v in 0..n as u32 {
        let sources = graph.incoming_neighbors(NodeId(v)).unwrap();
        for u in 0..n as u32 {
            let there = sources.iter().filter(|&&s| s == u).count();
            let here = forward.iter().filter(|t| t.0 == u && t.1 == v).count();
            assert_eq!(there, here, "edges {u} -> {v}");
        }
    }
}

#[test]
fn batch_built_graphs_keep_the_invariants() {
    for list in sample_edge_lists() {
        let graph = CsrGraph::from_edge_list(&edges_of(&list)).unwrap();
        let span = list.iter().map(|e| e.0.max(e.1) + 1).max().unwrap_or(0);
        assert_eq!(graph.num_nodes(), span as usize);
        assert_eq!(graph.num_edges(), list.len());
        check_invariants(&graph);
        for u in 0..span {
            let expected: Vec<u32> =
                list.iter().filter(|e| e.0 == u).map(|e| e.1).collect();
            assert_eq!(graph.outgoing_neighbors(NodeId(u)).unwrap(), expected);
            let expected: Vec<u32> =
                list.iter().filter(|e| e.1 == u).map(|e| e.0).collect();
            assert_eq!(graph.incoming_neighbors(NodeId(u)).unwrap(), expected);
        }
    }
}

#[test]
fn grown_graphs_keep_the_invariants() {
    for list in sample_edge_lists() {
        let mut graph = CsrGraph::new();
        check_invariants(&graph);
        for (i, &(s, t, x)) in list.iter().enumerate() {
            let before = graph.num_nodes();
            graph.add_edge(NodeId(s), NodeId(t), w(x)).unwrap();
            assert_eq!(graph.num_edges(), i + 1);
            assert_eq!(graph.num_nodes(), before.max(s.max(t) as usize + 1));
            if i % 16 == 0 {
                check_invariants(&graph);
            }
        }
        check_invariants(&graph);
        let batch = CsrGraph::from_edge_list(&edges_of(&list)).unwrap();
        assert_eq!(graph.csr_components(), batch.csr_components());
    }
}

#[test]
fn iter_adjacency_lists_every_row() {
    let graph = CsrGraph::from_edge_list(&edges_of(&[(0, 2, 1.5), (2, 0, 2.5), (0, 1, 0.5)]))
        .unwrap();
    assert_eq!(graph.iter_adjacency(), vec![
        (0, vec![(2, w(1.5)), (1, w(0.5))]),
        (1, vec![]),
        (2, vec![(0, w(2.5))]),
    ]);
    assert!(CsrGraph::new().iter_adjacency().is_empty());
}
