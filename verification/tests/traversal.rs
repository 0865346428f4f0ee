//! Breadth-first search and caller search.

use trueno_graph::{
    bfs, find_callers, find_patterns, louvain, CommunityDetectionResult, CsrGraph, GraphError,
    NodeId, Pattern, PatternMatch,
};

fn graph_of(list: &[(u32, u32)]) -> CsrGraph {
    let edges: Vec<_> =
        list.iter().map(|&(s, t)| (NodeId(s), NodeId(t), 1.0f32.to_bits())).collect();
    CsrGraph::from_edge_list(&edges).unwrap()
}

fn build_test_graph() -> CsrGraph {
    graph_of(&[(0, 1), (0, 2), (1, 3), (1, 4), (2, 4)])
}

#[test]
fn test_find_callers_direct() {
    let graph = graph_of(&[(0, 2), (1, 2)]);

    let callers = find_callers(&graph, NodeId(2), 1).unwrap();
    assert_eq!(callers.len(), 2);
    assert!(callers.contains(&0));
    assert!(callers.contains(&1));
}

#[test]
fn test_find_callers_transitive() {
    let graph = graph_of(&[(0, 1), (1, 2)]);

    let callers = find_callers(&graph, NodeId(2), 10).unwrap();
    assert_eq!(callers.len(), 2);
    assert!(callers.contains(&0));
    assert!(callers.contains(&1));
}

#[test]
fn traversal_test_find_callers_depth_limit() {
    let graph = graph_of(&[(0, 1), (1, 2), (2, 3)]);

    let callers = find_callers(&graph, NodeId(3), 1).unwrap();
    assert_eq!(callers.len(), 1);
    assert!(callers.contains(&2));

    let callers = find_callers(&graph, NodeId(3), 2).unwrap();
    assert_eq!(callers.len(), 2);
    assert!(callers.contains(&1));
    assert!(callers.contains(&2));

    let callers = find_callers(&graph, NodeId(3), 10).unwrap();
    assert_eq!(callers.len(), 3);
    assert!(callers.contains(&0));
    assert!(callers.contains(&1));
    assert!(callers.contains(&2));
}

#[test]
fn test_bfs_simple() {
    let graph = graph_of(&[(0, 1), (1, 2)]);

    let reachable = bfs(&graph, NodeId(0)).unwrap();
    assert_eq!(reachable.len(), 3);
    assert!(reachable.contains(&0));
    assert!(reachable.contains(&1));
    assert!(reachable.contains(&2));
}

#[test]
fn traversal_test_bfs_disconnected() {
    let graph = graph_of(&[(0, 1), (2, 3)]);

    let reachable = bfs(&graph, NodeId(0)).unwrap();
    assert_eq!(reachable.len(), 2);
    assert!(reachable.contains(&0));
    assert!(reachable.contains(&1));
    assert!(!reachable.contains(&2));
}

#[test]
fn test_bfs_reachability() {
    let graph = build_test_graph();

    let reachable = bfs(&graph, NodeId(0)).expect("BFS should succeed");

    assert_eq!(reachable.len(), 5, "All 5 nodes should be reachable");
    assert!(reachable.contains(&0), "Source should be in result");
    assert!(reachable.contains(&1));
    assert!(reachable.contains(&2));
    assert!(reachable.contains(&3));
    assert!(reachable.contains(&4));
}

#[test]
fn backend_story_test_bfs_disconnected() {
    let graph = graph_of(&[(0, 1), (2, 3)]);

    let reachable = bfs(&graph, NodeId(0)).expect("BFS should succeed");

    assert_eq!(reachable.len(), 2, "Only component 0-1 should be reachable");
    assert!(reachable.contains(&0));
    assert!(reachable.contains(&1));
    assert!(!reachable.contains(&2), "Node 2 should NOT be reachable");
    assert!(!reachable.contains(&3), "Node 3 should NOT be reachable");
}

#[test]
fn test_find_callers() {
    let graph = build_test_graph();

    let callers = find_callers(&graph, NodeId(4), 10).expect("find_callers should succeed");

    assert!(callers.contains(&1), "Node 1 should be a caller of 4");
    assert!(callers.contains(&2), "Node 2 should be a caller of 4");
    assert!(callers.contains(&0), "Node 0 should be a caller of 4 (indirectly)");
}

#[test]
fn backend_story_test_find_callers_depth_limit() {
    let graph = build_test_graph();

    let callers = find_callers(&graph, NodeId(4), 1).expect("find_callers should succeed");
    assert!(callers.contains(&1), "Node 1 directly calls 4");
    assert!(callers.contains(&2), "Node 2 directly calls 4");
    assert!(!callers.contains(&0), "Node 0 should NOT be included at depth 1");
}

#[test]
fn bfs_of_three_edge_graph_reaches_all() {
    let graph = graph_of(&[(0, 1), (0, 2), (1, 2)]);
    let (row_offsets, col_indices, _) = graph.csr_components();
    assert_eq!(row_offsets, &[0, 2, 3, 3]);
    assert_eq!(col_indices, &[1, 2, 2]);
    let mut incoming = graph.incoming_neighbors(NodeId(2)).unwrap().to_vec();
    incoming.sort_unstable();
    assert_eq!(incoming, vec![0, 1]);
    assert_eq!(bfs(&graph, NodeId(0)).unwrap(), vec![0, 1, 2]);
}

#[test]
fn bfs_on_empty_graph_is_empty() {
    let graph = CsrGraph::new();
    assert_eq!(bfs(&graph, NodeId(0)), Ok(vec![]));
    assert_eq!(bfs(&graph, NodeId(17)), Ok(vec![]));
}

#[test]
fn bfs_refuses_unknown_source() {
    let graph = graph_of(&[(0, 1)]);
    assert_eq!(bfs(&graph, NodeId(2)), Err(GraphError::NodeOutOfRange));
}

#[test]
fn bfs_follows_edge_direction_only() {
    let graph = graph_of(&[(0, 1), (2, 1), (1, 3), (3, 1)]);
    assert_eq!(bfs(&graph, NodeId(1)).unwrap(), vec![1, 3]);
    assert_eq!(bfs(&graph, NodeId(2)).unwrap(), vec![1, 2, 3]);
    assert_eq!(bfs(&graph, NodeId(3)).unwrap(), vec![1, 3]);
}

#[test]
fn find_callers_depth_zero_is_empty() {
    let graph = build_test_graph();
    assert_eq!(find_callers(&graph, NodeId(4), 0), Ok(vec![]));
    assert_eq!(find_callers(&graph, NodeId(99), 0), Ok(vec![]));
}

#[test]
fn find_callers_refuses_unknown_target() {
    let graph = build_test_graph();
    assert_eq!(find_callers(&graph, NodeId(5), 3), Err(GraphError::NodeOutOfRange));
}

#[test]
fn find_callers_excludes_target_on_cycle() {
    let graph = graph_of(&[(0, 1), (1, 2), (2, 0)]);
    assert_eq!(find_callers(&graph, NodeId(0), 1).unwrap(), vec![2]);
    assert_eq!(find_callers(&graph, NodeId(0), 2).unwrap(), vec![1, 2]);
    assert_eq!(find_callers(&graph, NodeId(0), 3).unwrap(), vec![1, 2]);
}

#[test]
fn forward_bfs_matches_reverse_search_from_every_node() {
    let graph = graph_of(&[(0, 1), (1, 2), (2, 1), (3, 2), (4, 4), (1, 5)]);
    let n = graph.num_nodes() as u32;
    for s in 0..n {
        let forward = bfs(&graph, NodeId(s)).unwrap();
        let mut by_reverse = Vec::new();
        for v in 0..n {
            let callers = find_callers(&graph, NodeId(v), n as usize).unwrap();
            if v == s || callers.contains(&s) {
                by_reverse.push(v);
            }
        }
        assert_eq!(forward, by_reverse, "source {s}");
    }
}

#[test]
fn test_algorithm_functions_exist() {
    let _: fn(&CsrGraph, NodeId) -> Result<Vec<u32>, GraphError> = bfs;
    let _: fn(&CsrGraph, NodeId, usize) -> Result<Vec<u32>, GraphError> = find_callers;
    let _: fn(&CsrGraph, &Pattern) -> Result<Vec<PatternMatch>, GraphError> = find_patterns;
    let _: fn(&CsrGraph) -> Result<CommunityDetectionResult, GraphError> = louvain;
}
