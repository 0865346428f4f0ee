//! Pattern types and detectors.

use trueno_graph::{find_patterns, CsrGraph, GraphError, NodeId, Pattern, PatternMatch, Severity};

fn w() -> u32 {
    1.0f32.to_bits()
}

fn graph_of(list: &[(u32, u32)]) -> CsrGraph {
    let edges: Vec<_> = list.iter().map(|&(s, t)| (NodeId(s), NodeId(t), w())).collect();
    CsrGraph::from_edge_list(&edges).unwrap()
}

fn single_nodes(matches: &[PatternMatch]) -> Vec<u32> {
    matches
        .iter()
        .map(|m| {
            assert_eq!(m.node_mapping.len(), 1);
            m.node_mapping[&0].0
        })
        .collect()
}

fn cycle_of(m: &PatternMatch) -> Vec<u32> {
    (0..m.node_mapping.len() as u32).map(|i| m.node_mapping[&i].0).collect()
}

#[test]
fn test_god_class_pattern() {
    let mut graph = CsrGraph::new();
    for i in 1..=5 {
        graph.add_edge(NodeId(0), NodeId(i), w()).unwrap();
    }

    let pattern = Pattern::god_class(5);
    let matches = find_patterns(&graph, &pattern).unwrap();

    assert_eq!(matches.len(), 1);
    assert_eq!(matches[0].pattern_name, "God Class");
    assert_eq!(matches[0].severity, Severity::High);
}

#[test]
fn test_circular_dependency_pattern() {
    let mut graph = CsrGraph::new();
    graph.add_edge(NodeId(0), NodeId(1), w()).unwrap();
    graph.add_edge(NodeId(1), NodeId(2), w()).unwrap();
    graph.add_edge(NodeId(2), NodeId(0), w()).unwrap();

    let pattern = Pattern::circular_dependency(3);
    let matches = find_patterns(&graph, &pattern).unwrap();

    assert_eq!(matches.len(), 1);
    assert_eq!(matches[0].pattern_name, "Circular Dependency");
    assert_eq!(matches[0].severity, Severity::Critical);
}

#[test]
fn test_dead_code_pattern() {
    let mut graph = CsrGraph::new();
    graph.add_edge(NodeId(0), NodeId(1), w()).unwrap();
    graph.add_edge(NodeId(2), NodeId(1), w()).unwrap();
    graph.add_edge(NodeId(3), NodeId(4), w()).unwrap();

    let pattern = Pattern::dead_code();
    let matches = find_patterns(&graph, &pattern).unwrap();

    assert!(!matches.is_empty());
}

#[test]
fn test_pattern_new() {
    let edges = vec![(0, 1), (1, 2)];
    let pattern = Pattern::new("Test Pattern".to_string(), edges, Severity::Medium);

    assert_eq!(pattern.name, "Test Pattern");
    assert_eq!(pattern.min_nodes, 3);
    assert_eq!(pattern.severity, Severity::Medium);
}

#[test]
fn test_no_circular_dependency() {
    let mut graph = CsrGraph::new();
    graph.add_edge(NodeId(0), NodeId(1), w()).unwrap();
    graph.add_edge(NodeId(1), NodeId(2), w()).unwrap();

    let pattern = Pattern::circular_dependency(3);
    let matches = find_patterns(&graph, &pattern).unwrap();

    assert_eq!(matches.len(), 0);
}

#[test]
fn test_severity_ordering() {
    assert!(Severity::Low < Severity::Medium);
    assert!(Severity::Medium < Severity::High);
    assert!(Severity::High < Severity::Critical);
}

#[test]
fn test_pattern_constructors_exist() {
    let _ = Pattern::god_class(5);
    let _ = Pattern::circular_dependency(3);
    let _ = Pattern::dead_code();
}

#[test]
fn test_pattern_detection_circular() {
    let graph = graph_of(&[(0, 1), (1, 2), (2, 0)]);

    let patterns = find_patterns(&graph, &Pattern::circular_dependency(3))
        .expect("Pattern detection should succeed");

    assert!(!patterns.is_empty(), "Should detect the circular dependency (3-cycle)");
}

#[test]
fn test_pattern_detection_god_class() {
    let list: Vec<(u32, u32)> = (1..=10).map(|i| (0, i)).collect();
    let graph = graph_of(&list);

    let patterns =
        find_patterns(&graph, &Pattern::god_class(5)).expect("Pattern detection should succeed");

    assert!(!patterns.is_empty(), "Should detect god class (node 0 has 10 callees)");
}

#[test]
fn severity_rank_follows_the_order() {
    assert_eq!(Severity::Low.rank(), 0);
    assert_eq!(Severity::Medium.rank(), 1);
    assert_eq!(Severity::High.rank(), 2);
    assert_eq!(Severity::Critical.rank(), 3);
}

#[test]
fn constructors_fill_in_the_pattern() {
    let god = Pattern::god_class(7);
    assert_eq!(god.name, "God Class");
    assert_eq!(god.min_nodes, 8);
    assert_eq!(god.max_nodes, None);
    assert!(god.edges.is_empty());
    assert_eq!(god.severity, Severity::High);

    let ring = Pattern::circular_dependency(4);
    assert_eq!(ring.name, "Circular Dependency");
    assert_eq!(ring.edges, vec![(0, 1), (1, 2), (2, 3), (3, 0)]);
    assert_eq!(ring.min_nodes, 4);
    assert_eq!(ring.max_nodes, Some(4));
    assert_eq!(ring.severity, Severity::Critical);
    assert!(Pattern::circular_dependency(0).edges.is_empty());
    assert_eq!(Pattern::circular_dependency(1).edges, vec![(0, 0)]);

    let dead = Pattern::dead_code();
    assert_eq!(dead.name, "Dead Code");
    assert_eq!(dead.min_nodes, 1);
    assert_eq!(dead.max_nodes, Some(1));
    assert_eq!(dead.severity, Severity::Medium);

    let empty = Pattern::new("Nothing".to_string(), vec![], Severity::Low);
    assert_eq!(empty.min_nodes, 0);
    assert_eq!(empty.max_nodes, None);
}

#[test]
fn pattern_spans_one_past_the_largest_id() {
    let small = Pattern::new("Fan".to_string(), vec![(3, 7), (9, 2), (4, 4)], Severity::Low);
    assert_eq!(small.min_nodes, 10);
    if usize::BITS > 32 {
        let wide = Pattern::new("Wide".to_string(), vec![(u32::MAX, 0), (3, 7)], Severity::Low);
        assert_eq!(wide.min_nodes, u32::MAX as usize + 1);
        assert_eq!(wide.max_nodes, None);
    }
}

#[test]
fn unknown_pattern_is_unsupported() {
    let graph = graph_of(&[(0, 1)]);
    let pattern = Pattern::new("Diamond".to_string(), vec![(0, 1), (0, 2)], Severity::Low);
    assert_eq!(find_patterns(&graph, &pattern).unwrap_err(), GraphError::PatternUnsupported);
    assert!(GraphError::PatternUnsupported.message().contains("not supported"));
}

#[test]
fn god_class_reports_nodes_at_or_over_the_threshold() {
    let graph = graph_of(&[(0, 1), (0, 2), (0, 3), (2, 0), (2, 1), (3, 0)]);
    let found = find_patterns(&graph, &Pattern::god_class(2)).unwrap();
    assert_eq!(single_nodes(&found), vec![0, 2]);
    let found = find_patterns(&graph, &Pattern::god_class(3)).unwrap();
    assert_eq!(single_nodes(&found), vec![0]);
    let found = find_patterns(&graph, &Pattern::god_class(0)).unwrap();
    assert_eq!(single_nodes(&found), vec![0, 1, 2, 3]);
    assert!(find_patterns(&graph, &Pattern::god_class(4)).unwrap().is_empty());
}

#[test]
fn dead_code_reports_nodes_without_callers() {
    let graph = graph_of(&[(0, 1), (2, 1), (3, 4), (4, 4)]);
    let found = find_patterns(&graph, &Pattern::dead_code()).unwrap();
    assert_eq!(single_nodes(&found), vec![0, 2, 3]);
    assert!(found.iter().all(|m| m.pattern_name == "Dead Code"));
    assert!(found.iter().all(|m| m.severity == Severity::Medium));
}

#[test]
fn detectors_find_nothing_in_the_empty_graph() {
    let graph = CsrGraph::new();
    assert!(find_patterns(&graph, &Pattern::god_class(0)).unwrap().is_empty());
    assert!(find_patterns(&graph, &Pattern::circular_dependency(1)).unwrap().is_empty());
    assert!(find_patterns(&graph, &Pattern::dead_code()).unwrap().is_empty());
}

#[test]
fn cycles_are_reported_once_per_node_set() {
    // Two triangles that share node 0, and a two-cycle.
    let graph = graph_of(&[(0, 1), (1, 2), (2, 0), (0, 3), (3, 4), (4, 0), (5, 6), (6, 5)]);
    let found = find_patterns(&graph, &Pattern::circular_dependency(3)).unwrap();
    let cycles: Vec<Vec<u32>> = found.iter().map(cycle_of).collect();
    assert_eq!(cycles, vec![vec![0, 1, 2], vec![0, 3, 4]]);
    let found = find_patterns(&graph, &Pattern::circular_dependency(2)).unwrap();
    assert_eq!(found.iter().map(cycle_of).collect::<Vec<_>>(), vec![vec![5, 6]]);
    assert!(find_patterns(&graph, &Pattern::circular_dependency(4)).unwrap().is_empty());
    assert!(find_patterns(&graph, &Pattern::circular_dependency(0)).unwrap().is_empty());
    assert!(find_patterns(&graph, &Pattern::circular_dependency(50)).unwrap().is_empty());
}

#[test]
fn self_loops_are_cycles_of_length_one() {
    let graph = graph_of(&[(0, 0), (1, 2), (2, 2)]);
    let found = find_patterns(&graph, &Pattern::circular_dependency(1)).unwrap();
    assert_eq!(found.iter().map(cycle_of).collect::<Vec<_>>(), vec![vec![0], vec![2]]);
}

#[test]
fn cycles_are_simple() {
    // 0 -> 1 -> 0 and the loop 0 -> 0 give no cycle of three nodes.
    let graph = graph_of(&[(0, 1), (1, 0), (0, 0), (1, 2)]);
    assert!(find_patterns(&graph, &Pattern::circular_dependency(3)).unwrap().is_empty());
    // Both directions of a four-cycle over the same nodes count once.
    let graph =
        graph_of(&[(0, 1), (1, 2), (2, 3), (3, 0), (0, 3), (3, 2), (2, 1), (1, 0)]);
    let found = find_patterns(&graph, &Pattern::circular_dependency(4)).unwrap();
    assert_eq!(found.iter().map(cycle_of).collect::<Vec<_>>(), vec![vec![0, 1, 2, 3]]);
}
