//! Community detection.

use trueno_graph::{louvain, CommunityDetectionResult, CsrGraph, NodeId};

fn w(x: f32) -> u32 {
    x.to_bits()
}

fn modularity(result: &CommunityDetectionResult) -> f64 {
    f64::from_bits(result.modularity)
}

#[test]
fn test_louvain_empty_graph() {
    let graph = CsrGraph::new();
    let result = louvain(&graph).unwrap();

    assert_eq!(result.num_communities, 0);
    assert_eq!(result.communities.len(), 0);
}

#[test]
fn test_louvain_single_triangle() {
    let mut graph = CsrGraph::new();
    graph.add_edge(NodeId(0), NodeId(1), w(1.0)).unwrap();
    graph.add_edge(NodeId(1), NodeId(2), w(1.0)).unwrap();
    graph.add_edge(NodeId(2), NodeId(0), w(1.0)).unwrap();

    let result = louvain(&graph).unwrap();

    assert_eq!(result.num_communities, 1, "Triangle should form 1 community");

    let comm_0 = result.get_community(NodeId(0));
    let comm_1 = result.get_community(NodeId(1));
    let comm_2 = result.get_community(NodeId(2));

    assert_eq!(comm_0, comm_1);
    assert_eq!(comm_1, comm_2);
}

#[test]
fn test_louvain_two_triangles_connected() {
    let mut graph = CsrGraph::new();

    graph.add_edge(NodeId(0), NodeId(1), w(1.0)).unwrap();
    graph.add_edge(NodeId(1), NodeId(2), w(1.0)).unwrap();
    graph.add_edge(NodeId(2), NodeId(0), w(1.0)).unwrap();

    graph.add_edge(NodeId(3), NodeId(4), w(1.0)).unwrap();
    graph.add_edge(NodeId(4), NodeId(5), w(1.0)).unwrap();
    graph.add_edge(NodeId(5), NodeId(3), w(1.0)).unwrap();

    graph.add_edge(NodeId(2), NodeId(3), w(1.0)).unwrap();

    let result = louvain(&graph).unwrap();

    assert!(result.num_communities >= 1, "Should find at least 1 community");
    assert!(
        modularity(&result) > 0.0,
        "Modularity should be positive for community structure"
    );
}

#[test]
fn test_louvain_disconnected_components() {
    let mut graph = CsrGraph::new();

    graph.add_edge(NodeId(0), NodeId(1), w(1.0)).unwrap();
    graph.add_edge(NodeId(1), NodeId(2), w(1.0)).unwrap();
    graph.add_edge(NodeId(2), NodeId(0), w(1.0)).unwrap();

    graph.add_edge(NodeId(3), NodeId(4), w(1.0)).unwrap();
    graph.add_edge(NodeId(4), NodeId(5), w(1.0)).unwrap();
    graph.add_edge(NodeId(5), NodeId(3), w(1.0)).unwrap();

    let result = louvain(&graph).unwrap();

    assert_eq!(
        result.num_communities, 2,
        "Should find 2 communities for 2 disconnected components"
    );

    let comm_0 = result.get_community(NodeId(0));
    let comm_3 = result.get_community(NodeId(3));

    assert!(comm_0.is_some() && comm_3.is_some());
    assert_ne!(comm_0, comm_3, "Disconnected components should be in different communities");
}

#[test]
fn test_community_detection_result_api() {
    let result = CommunityDetectionResult {
        communities: vec![vec![NodeId(0), NodeId(1), NodeId(2)], vec![NodeId(3), NodeId(4)]],
        num_communities: 2,
        modularity: 0.42f64.to_bits(),
    };

    assert_eq!(result.get_community(NodeId(0)), Some(0));
    assert_eq!(result.get_community(NodeId(3)), Some(1));
    assert_eq!(result.get_community(NodeId(99)), None);

    assert_eq!(
        result.get_community_nodes(0),
        Some(&[NodeId(0), NodeId(1), NodeId(2)] as &[NodeId])
    );
    assert_eq!(result.get_community_nodes(1), Some(&[NodeId(3), NodeId(4)] as &[NodeId]));
    assert_eq!(result.get_community_nodes(2), None);

    assert_eq!(result.community_size(0), Some(3));
    assert_eq!(result.community_size(1), Some(2));
    assert_eq!(result.community_size(2), None);
}

#[test]
fn test_louvain_all_nodes_assigned() {
    let mut graph = CsrGraph::new();

    graph.add_edge(NodeId(0), NodeId(1), w(1.0)).unwrap();
    graph.add_edge(NodeId(1), NodeId(2), w(1.0)).unwrap();
    graph.add_edge(NodeId(2), NodeId(3), w(1.0)).unwrap();
    graph.add_edge(NodeId(3), NodeId(4), w(1.0)).unwrap();

    let result = louvain(&graph).unwrap();

    let mut assigned_nodes = std::collections::HashSet::new();
    for community in &result.communities {
        for &node in community {
            assigned_nodes.insert(node);
        }
    }

    assert_eq!(assigned_nodes.len(), 5);
    assert!(assigned_nodes.contains(&NodeId(0)));
    assert!(assigned_nodes.contains(&NodeId(1)));
    assert!(assigned_nodes.contains(&NodeId(2)));
    assert!(assigned_nodes.contains(&NodeId(3)));
    assert!(assigned_nodes.contains(&NodeId(4)));
}

#[test]
fn test_louvain_basic() {
    let list: [(u32, u32, f32); 13] = [
        (0, 1, 1.0),
        (1, 0, 1.0),
        (1, 2, 1.0),
        (2, 1, 1.0),
        (0, 2, 1.0),
        (2, 0, 1.0),
        (3, 4, 1.0),
        (4, 3, 1.0),
        (4, 5, 1.0),
        (5, 4, 1.0),
        (3, 5, 1.0),
        (5, 3, 1.0),
        (2, 3, 0.1),
    ];
    let edges: Vec<_> = list.iter().map(|&(s, t, x)| (NodeId(s), NodeId(t), w(x))).collect();
    let graph = CsrGraph::from_edge_list(&edges).unwrap();

    let result = louvain(&graph).expect("Louvain should succeed");

    assert!(
        result.num_communities >= 2,
        "Should detect at least 2 communities, got {}",
        result.num_communities
    );
    assert!(
        modularity(&result) > 0.0,
        "Modularity should be positive, got {}",
        modularity(&result)
    );
}

#[test]
fn louvain_splits_every_node_into_one_community() {
    let list = [(0, 1), (1, 2), (2, 0), (3, 4), (4, 5), (5, 3), (2, 3), (7, 8), (9, 9)];
    let edges: Vec<_> = list.iter().map(|&(s, t)| (NodeId(s), NodeId(t), w(1.0))).collect();
    let graph = CsrGraph::from_edge_list(&edges).unwrap();
    let result = louvain(&graph).unwrap();
    assert_eq!(result.num_communities, result.communities.len());
    assert!(result.communities.iter().all(|c| !c.is_empty()));
    let mut all: Vec<u32> = result.communities.iter().flatten().map(|n| n.0).collect();
    all.sort_unstable();
    assert_eq!(all, (0..10).collect::<Vec<u32>>());
    assert!(modularity(&result).is_finite());
}

#[test]
fn louvain_on_a_single_edge_still_covers_both_ends() {
    let graph = CsrGraph::from_edge_list(&[(NodeId(0), NodeId(1), w(2.5))]).unwrap();
    let result = louvain(&graph).unwrap();
    let mut all: Vec<u32> = result.communities.iter().flatten().map(|n| n.0).collect();
    all.sort_unstable();
    assert_eq!(all, vec![0, 1]);
    assert!(modularity(&result).is_finite());
}
