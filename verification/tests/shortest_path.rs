//! Shortest paths. Weights and costs are single-precision values; the
//! library carries them as bit patterns and is handed the addition.

use std::collections::HashMap;
use trueno_graph::{dijkstra, dijkstra_path, CsrGraph, NodeId};

fn plus(cost: u32, weight: u32) -> u32 {
    (f32::from_bits(cost) + f32::from_bits(weight)).to_bits()
}

fn graph_of(list: &[(u32, u32, f32)]) -> CsrGraph {
    let edges: Vec<_> = list.iter().map(|&(s, t, w)| (NodeId(s), NodeId(t), w.to_bits())).collect();
    CsrGraph::from_edge_list(&edges).unwrap()
}

fn distances(graph: &CsrGraph, source: u32) -> HashMap<NodeId, f32> {
    dijkstra(graph, NodeId(source), plus)
        .into_iter()
        .map(|(node, bits)| (NodeId(node), f32::from_bits(bits)))
        .collect()
}

fn path(graph: &CsrGraph, source: u32, target: u32) -> Option<(f32, Vec<NodeId>)> {
    dijkstra_path(graph, NodeId(source), NodeId(target), plus)
        .map(|(bits, nodes)| (f32::from_bits(bits), nodes))
}

#[test]
fn shortest_path_test_empty_graph() {
    let graph = CsrGraph::new();
    let distances = distances(&graph, 0);
    assert!(distances.is_empty());
}

#[test]
fn test_single_edge() {
    let graph = graph_of(&[(0, 1, 5.0)]);

    let distances = distances(&graph, 0);
    assert_eq!(distances.get(&NodeId(0)), Some(&0.0));
    assert_eq!(distances.get(&NodeId(1)), Some(&5.0));
}

#[test]
fn test_chain() {
    let graph = graph_of(&[(0, 1, 1.0), (1, 2, 2.0)]);

    let distances = distances(&graph, 0);
    assert_eq!(distances.get(&NodeId(0)), Some(&0.0));
    assert_eq!(distances.get(&NodeId(1)), Some(&1.0));
    assert_eq!(distances.get(&NodeId(2)), Some(&3.0));
}

#[test]
fn test_shorter_path_via_intermediate() {
    let graph = graph_of(&[(0, 1, 1.0), (1, 2, 2.0), (0, 2, 5.0)]);

    let distances = distances(&graph, 0);
    assert_eq!(distances.get(&NodeId(2)), Some(&3.0));
}

#[test]
fn test_unreachable_node() {
    let graph = graph_of(&[(0, 1, 1.0), (2, 3, 1.0)]);

    let distances = distances(&graph, 0);
    assert_eq!(distances.get(&NodeId(0)), Some(&0.0));
    assert_eq!(distances.get(&NodeId(1)), Some(&1.0));
    assert!(distances.get(&NodeId(2)).is_none());
    assert!(distances.get(&NodeId(3)).is_none());
}

#[test]
fn test_dijkstra_path_simple() {
    let graph = graph_of(&[(0, 1, 1.0), (1, 2, 2.0)]);

    let result = path(&graph, 0, 2);
    assert!(result.is_some());
    let (dist, path) = result.unwrap();
    assert_eq!(dist, 3.0);
    assert_eq!(path, vec![NodeId(0), NodeId(1), NodeId(2)]);
}

#[test]
fn test_dijkstra_path_same_node() {
    let graph = graph_of(&[(0, 1, 1.0)]);

    let result = path(&graph, 0, 0);
    assert!(result.is_some());
    let (dist, path) = result.unwrap();
    assert_eq!(dist, 0.0);
    assert_eq!(path, vec![NodeId(0)]);
}

#[test]
fn test_dijkstra_path_unreachable() {
    let graph = graph_of(&[(0, 1, 1.0), (2, 3, 1.0)]);

    let result = path(&graph, 0, 3);
    assert!(result.is_none());
}

#[test]
fn test_dijkstra_path_chooses_shorter() {
    let graph = graph_of(&[(0, 1, 1.0), (1, 2, 2.0), (0, 2, 5.0)]);

    let result = path(&graph, 0, 2);
    assert!(result.is_some());
    let (dist, path) = result.unwrap();
    assert_eq!(dist, 3.0);
    assert_eq!(path, vec![NodeId(0), NodeId(1), NodeId(2)]);
}

#[test]
fn test_diamond_shortest_path() {
    let graph = graph_of(&[(0, 1, 1.0), (0, 2, 2.0), (1, 3, 1.0), (2, 3, 5.0)]);

    let result = path(&graph, 0, 3);
    assert!(result.is_some());
    let (dist, path) = result.unwrap();
    assert_eq!(dist, 2.0);
    assert_eq!(path, vec![NodeId(0), NodeId(1), NodeId(3)]);
}

#[test]
fn test_cycle_in_graph() {
    let graph = graph_of(&[(0, 1, 1.0), (1, 2, 1.0), (2, 0, 1.0), (0, 3, 10.0)]);

    let distances = distances(&graph, 0);
    assert_eq!(distances.get(&NodeId(0)), Some(&0.0));
    assert_eq!(distances.get(&NodeId(1)), Some(&1.0));
    assert_eq!(distances.get(&NodeId(2)), Some(&2.0));
    assert_eq!(distances.get(&NodeId(3)), Some(&10.0));
}

#[test]
fn test_source_out_of_bounds() {
    let graph = graph_of(&[(0, 1, 1.0)]);

    let distances = distances(&graph, 100);
    assert!(distances.is_empty());
}

#[test]
fn test_zero_weight_edge() {
    let graph = graph_of(&[(0, 1, 0.0), (1, 2, 0.0)]);

    let distances = distances(&graph, 0);
    assert_eq!(distances.get(&NodeId(2)), Some(&0.0));
}

#[test]
fn path_ends_out_of_range_give_no_path() {
    let graph = graph_of(&[(0, 1, 1.0)]);
    assert_eq!(path(&graph, 5, 0), None);
    assert_eq!(path(&graph, 0, 5), None);
    assert_eq!(path(&CsrGraph::new(), 0, 0), None);
}

#[test]
fn distance_map_and_path_cost_agree() {
    let graph = graph_of(&[
        (0, 1, 4.0),
        (0, 2, 1.0),
        (2, 1, 2.0),
        (1, 3, 1.0),
        (2, 3, 5.5),
        (3, 4, 0.25),
        (4, 0, 1.0),
        (5, 0, 1.0),
    ]);
    let all = distances(&graph, 0);
    assert_eq!(all.len(), 5);
    for v in 0..6 {
        match path(&graph, 0, v) {
            Some((cost, nodes)) => {
                assert_eq!(all.get(&NodeId(v)), Some(&cost), "node {v}");
                assert_eq!(nodes.first(), Some(&NodeId(0)));
                assert_eq!(nodes.last(), Some(&NodeId(v)));
            },
            None => assert!(!all.contains_key(&NodeId(v)), "node {v}"),
        }
    }
    assert_eq!(all[&NodeId(1)], 3.0);
    assert_eq!(all[&NodeId(3)], 4.0);
    assert_eq!(all[&NodeId(4)], 4.25);
    assert_eq!(path(&graph, 0, 4).unwrap().1, vec![
        NodeId(0),
        NodeId(2),
        NodeId(1),
        NodeId(3),
        NodeId(4)
    ]);
}

#[test]
fn parallel_edges_take_the_cheaper() {
    let graph = graph_of(&[(0, 1, 7.0), (0, 1, 2.0), (0, 1, 3.0), (1, 1, 1.0)]);
    assert_eq!(distances(&graph, 0)[&NodeId(1)], 2.0);
    assert_eq!(path(&graph, 0, 1), Some((2.0, vec![NodeId(0), NodeId(1)])));
}

#[test]
fn many_nodes_come_out_in_order_of_cost() {
    // A chain with shortcuts that are never worth taking.
    let mut list = Vec::new();
    for i in 0..200u32 {
        list.push((i, i + 1, 1.0));
        if i % 7 == 0 && i + 5 <= 200 {
            list.push((i, i + 5, 6.0));
        }
    }
    let graph = graph_of(&list);
    let all = distances(&graph, 0);
    assert_eq!(all.len(), 201);
    for i in 0..=200u32 {
        assert_eq!(all[&NodeId(i)], i as f32);
    }
    let (cost, nodes) = path(&graph, 0, 200).unwrap();
    assert_eq!(cost, 200.0);
    assert_eq!(nodes.len(), 201);
}

#[test]
fn negative_weights_neither_hang_nor_lose_nodes() {
    let graph = graph_of(&[(0, 1, 1.0), (1, 2, -5.0), (2, 1, 1.0), (2, 3, f32::NAN), (4, 0, 1.0)]);
    let all = distances(&graph, 0);
    let mut nodes: Vec<u32> = all.keys().map(|n| n.0).collect();
    nodes.sort_unstable();
    assert_eq!(nodes, vec![0, 1, 2, 3]);
    assert_eq!(all[&NodeId(0)], 0.0);
    if let Some((_, nodes)) = path(&graph, 0, 3) {
        assert_eq!(nodes.first(), Some(&NodeId(0)));
        assert_eq!(nodes.last(), Some(&NodeId(3)));
    }
    assert_eq!(path(&graph, 0, 4), None);
}
