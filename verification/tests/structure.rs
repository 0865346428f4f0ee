//! Weakly and strongly connected components.

use trueno_graph::{bfs, connected_components, kosaraju_scc, CsrGraph, NodeId};

fn graph_of(list: &[(u32, u32)]) -> CsrGraph {
    let edges: Vec<_> =
        list.iter().map(|&(s, t)| (NodeId(s), NodeId(t), 1.0f32.to_bits())).collect();
    CsrGraph::from_edge_list(&edges).unwrap()
}

fn sorted(component: &[NodeId]) -> Vec<u32> {
    let mut ids: Vec<u32> = component.iter().map(|n| n.0).collect();
    ids.sort_unstable();
    ids
}

#[test]
fn test_empty_graph_components() {
    let graph = CsrGraph::new();
    assert_eq!(connected_components(&graph), 0);
}

#[test]
fn test_empty_graph_scc() {
    let graph = CsrGraph::new();
    let sccs = kosaraju_scc(&graph);
    assert!(sccs.is_empty());
}

#[test]
fn test_single_node_component() {
    let graph = graph_of(&[(0, 1)]);
    assert_eq!(connected_components(&graph), 1);
}

#[test]
fn test_two_disconnected_edges() {
    let graph = graph_of(&[(0, 1), (2, 3)]);
    assert_eq!(connected_components(&graph), 2);
}

#[test]
fn test_chain_single_component() {
    let graph = graph_of(&[(0, 1), (1, 2), (2, 3)]);
    assert_eq!(connected_components(&graph), 1);
}

#[test]
fn test_diamond_single_component() {
    let graph = graph_of(&[(0, 1), (0, 2), (1, 3), (2, 3)]);
    assert_eq!(connected_components(&graph), 1);
}

#[test]
fn test_scc_dag_each_node_separate() {
    let graph = graph_of(&[(0, 1), (1, 2)]);
    let sccs = kosaraju_scc(&graph);
    assert_eq!(sccs.len(), 3);
}

#[test]
fn test_scc_simple_cycle() {
    let graph = graph_of(&[(0, 1), (1, 2), (2, 0)]);
    let sccs = kosaraju_scc(&graph);
    assert_eq!(sccs.len(), 1);
    assert_eq!(sccs[0].len(), 3);
}

#[test]
fn test_scc_two_node_cycle() {
    let graph = graph_of(&[(0, 1), (1, 0)]);
    let sccs = kosaraju_scc(&graph);
    assert_eq!(sccs.len(), 1);
    assert_eq!(sccs[0].len(), 2);
}

#[test]
fn test_scc_self_loop() {
    let graph = graph_of(&[(0, 0)]);
    let sccs = kosaraju_scc(&graph);
    assert_eq!(sccs.len(), 1);
    assert_eq!(sccs[0].len(), 1);
}

#[test]
fn test_scc_two_separate_cycles() {
    let graph = graph_of(&[(0, 1), (1, 0), (2, 3), (3, 2)]);
    let sccs = kosaraju_scc(&graph);
    assert_eq!(sccs.len(), 2);
    assert!(sccs.iter().all(|scc| scc.len() == 2));
}

#[test]
fn test_scc_complex_graph() {
    let graph = graph_of(&[(0, 1), (1, 0), (1, 2), (2, 3), (3, 2)]);
    let sccs = kosaraju_scc(&graph);
    assert_eq!(sccs.len(), 2);
}

#[test]
fn test_scc_disconnected_with_cycles() {
    let graph = graph_of(&[(0, 1), (1, 2), (2, 0), (3, 4), (4, 3)]);
    let sccs = kosaraju_scc(&graph);
    assert_eq!(sccs.len(), 2);
    let sizes: Vec<_> = sccs.iter().map(|s| s.len()).collect();
    assert!(sizes.contains(&3));
    assert!(sizes.contains(&2));
}

#[test]
fn test_connected_components_with_cycle() {
    let graph = graph_of(&[(0, 1), (1, 2), (2, 0)]);
    assert_eq!(connected_components(&graph), 1);
}

#[test]
fn test_three_separate_components() {
    let graph = graph_of(&[(0, 1), (2, 3), (4, 5)]);
    assert_eq!(connected_components(&graph), 3);
}

#[test]
fn isolated_nodes_are_components_of_their_own() {
    let graph = graph_of(&[(0, 4), (2, 2)]);
    assert_eq!(graph.num_nodes(), 5);
    assert_eq!(connected_components(&graph), 4);
    let sccs = kosaraju_scc(&graph);
    assert_eq!(sccs.len(), 5);
}

#[test]
fn components_ignore_edge_direction() {
    let graph = graph_of(&[(1, 0), (1, 2), (3, 2), (5, 4)]);
    assert_eq!(connected_components(&graph), 2);
}

#[test]
fn bfs_stays_inside_its_component() {
    let graph = graph_of(&[(0, 1), (1, 0), (2, 3), (3, 4), (4, 2)]);
    assert_eq!(connected_components(&graph), 2);
    assert_eq!(bfs(&graph, NodeId(0)).unwrap(), vec![0, 1]);
    assert_eq!(bfs(&graph, NodeId(3)).unwrap(), vec![2, 3, 4]);
}

#[test]
fn scc_lists_what_is_reached_before_what_reaches_it() {
    let graph = graph_of(&[(0, 1), (1, 0), (1, 2), (2, 3), (3, 2), (3, 4)]);
    let sccs = kosaraju_scc(&graph);
    let sets: Vec<Vec<u32>> = sccs.iter().map(|c| sorted(c)).collect();
    assert_eq!(sets, vec![vec![4], vec![2, 3], vec![0, 1]]);
}

#[test]
fn scc_of_a_chain_starts_at_its_end() {
    let graph = graph_of(&[(0, 1), (1, 2)]);
    let sccs = kosaraju_scc(&graph);
    let sets: Vec<Vec<u32>> = sccs.iter().map(|c| sorted(c)).collect();
    assert_eq!(sets, vec![vec![2], vec![1], vec![0]]);
}

#[test]
fn scc_splits_every_node_into_one_component() {
    let graph = graph_of(&[(0, 1), (1, 2), (2, 0), (2, 3), (3, 4), (4, 5), (5, 3), (6, 5), (7, 7)]);
    let sccs = kosaraju_scc(&graph);
    let mut all: Vec<u32> = sccs.iter().flat_map(|c| c.iter().map(|n| n.0)).collect();
    all.sort_unstable();
    assert_eq!(all, (0..8).collect::<Vec<u32>>());
    let mut sets: Vec<Vec<u32>> = sccs.iter().map(|c| sorted(c)).collect();
    sets.sort();
    assert_eq!(sets, vec![vec![0, 1, 2], vec![3, 4, 5], vec![6], vec![7]]);
}
