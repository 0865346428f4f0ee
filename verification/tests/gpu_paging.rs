//! Tiles, the tile cache, and breadth-first search over tiles.

use trueno_graph::{
    gpu_bfs_paged, paged_bfs, CsrGraph, GpuMemoryLimits, GraphTile, LruTileCache, NodeId,
    PagedBfs, PagingCoordinator, DEFAULT_MORSEL_SIZE,
};

fn w() -> u32 {
    1.0f32.to_bits()
}

fn roomy() -> GpuMemoryLimits {
    GpuMemoryLimits::detect(1 << 32)
}

/// A budget so small that nothing fits and tiles hold 100 nodes.
fn cramped() -> GpuMemoryLimits {
    GpuMemoryLimits { total_vram: 16, usable_vram: 11, morsel_size: 256, max_morsels: 1 }
}

fn ring(n: u32) -> CsrGraph {
    let edges: Vec<_> = (0..n).map(|i| (NodeId(i), NodeId((i + 1) % n), w())).collect();
    CsrGraph::from_edge_list(&edges).unwrap()
}

#[test]
fn test_lru_cache_capacity() {
    let cache = LruTileCache::<u32>::new(5);
    assert_eq!(cache.capacity(), 5);
    assert_eq!(cache.len(), 0);
    assert!(cache.is_empty());
}

#[test]
fn test_lru_cache_zero_capacity() {
    let cache = LruTileCache::<u32>::new(0);
    assert_eq!(cache.capacity(), 1);
}

#[test]
fn test_lru_cache_basic() {
    let mut cache = LruTileCache::new(3);

    assert_eq!(cache.insert(1, "tile_1"), None);
    assert_eq!(cache.insert(2, "tile_2"), None);
    assert_eq!(cache.insert(3, "tile_3"), None);
    assert_eq!(cache.len(), 3);

    assert!(cache.get(1).is_some());

    assert_eq!(cache.insert(4, "tile_4"), Some(2));
    assert_eq!(cache.len(), 3);
    assert!(cache.contains(1));
    assert!(!cache.contains(2));
    assert!(cache.contains(3));
    assert!(cache.contains(4));
}

#[test]
fn test_lru_cache_reinsertion() {
    let mut cache = LruTileCache::new(2);

    assert_eq!(cache.insert(1, "tile_1"), None);
    assert_eq!(cache.len(), 1);

    assert_eq!(cache.insert(1, "tile_1_new"), None);
    assert_eq!(cache.len(), 1);
    assert!(cache.contains(1));
    assert_eq!(cache.get(1), Some(&"tile_1_new"));
}

#[test]
fn test_lru_cache_clear() {
    let mut cache = LruTileCache::new(3);

    cache.insert(1, 10u8);
    cache.insert(2, 20u8);
    assert_eq!(cache.len(), 2);

    cache.clear();
    assert_eq!(cache.len(), 0);
    assert!(cache.is_empty());
    assert!(!cache.contains(1));
    assert!(!cache.contains(2));
    assert_eq!(cache.capacity(), 3);
}

#[test]
fn test_lru_cache_get_nonexistent() {
    let mut cache = LruTileCache::<u32>::new(3);
    assert!(cache.get(999).is_none());
}

#[test]
fn lru_cache_evicts_in_order_of_last_use() {
    let mut cache = LruTileCache::new(3);
    assert_eq!(cache.insert(10, 'a'), None);
    assert_eq!(cache.insert(20, 'b'), None);
    assert_eq!(cache.insert(30, 'c'), None);
    // Use order is now 10, 20, 30; touching 10 and re-inserting 20 makes it 30, 10, 20.
    assert_eq!(cache.get(10), Some(&'a'));
    assert_eq!(cache.insert(20, 'B'), None);
    assert_eq!(cache.insert(40, 'd'), Some(30));
    assert_eq!(cache.insert(50, 'e'), Some(10));
    assert_eq!(cache.insert(60, 'f'), Some(20));
    assert_eq!(cache.insert(70, 'g'), Some(40));
    assert_eq!(cache.len(), 3);
    assert_eq!(cache.get(50), Some(&'e'));
    assert_eq!(cache.get(20), None);
    // `contains` does not count as a use.
    assert!(cache.contains(60));
    assert_eq!(cache.insert(80, 'h'), Some(60));
}

#[test]
fn lru_cache_of_one_keeps_the_last() {
    let mut cache = LruTileCache::new(0);
    assert_eq!(cache.insert(1, 1u64), None);
    assert_eq!(cache.insert(2, 2u64), Some(1));
    assert_eq!(cache.insert(2, 3u64), None);
    assert_eq!(cache.get(2), Some(&3));
    assert_eq!(cache.len(), 1);
}

#[test]
fn test_graph_tile_size() {
    let tile = GraphTile {
        id: 0,
        start_node: 0,
        end_node: 100,
        num_nodes: 100,
        row_offsets: vec![0; 101],
        col_indices: vec![0; 200],
        edge_weights: vec![0.0f32.to_bits(); 200],
    };

    let size = tile.size_bytes();
    assert!(size > 0);
    assert_eq!(size, 101 * 4 + 200 * 4 + 200 * 4);
}

#[test]
fn test_paging_coordinator_small_graph() {
    let mut graph = CsrGraph::new();
    graph.add_edge(NodeId(0), NodeId(1), w()).unwrap();
    graph.add_edge(NodeId(1), NodeId(2), w()).unwrap();

    let coordinator = PagingCoordinator::new(roomy(), &graph);

    assert!(coordinator.num_tiles() >= 1);
    assert!(coordinator.fits_in_vram());

    let tile = coordinator.get_tile_for_node(NodeId(0)).unwrap();
    assert!(tile.start_node <= 0);
    assert!(tile.end_node > 0);
}

#[test]
fn test_paging_coordinator_tiling() {
    let graph = ring(100);

    let coordinator = PagingCoordinator::new(roomy(), &graph);

    assert!(coordinator.num_tiles() >= 1);
    for node_id in 0..100 {
        assert!(
            coordinator.get_tile_for_node(NodeId(node_id)).is_some(),
            "Node {} not in any tile",
            node_id
        );
    }
}

#[test]
fn test_paging_coordinator_get_tile() {
    let mut graph = CsrGraph::new();
    graph.add_edge(NodeId(0), NodeId(1), w()).unwrap();
    graph.add_edge(NodeId(1), NodeId(2), w()).unwrap();

    let coordinator = PagingCoordinator::new(roomy(), &graph);

    assert!(coordinator.get_tile(0).is_some());
    assert!(coordinator.get_tile(999).is_none());
}

#[test]
fn test_paging_coordinator_tiles_iterator() {
    let mut graph = CsrGraph::new();
    for i in 0..50 {
        graph.add_edge(NodeId(i), NodeId(i + 1), w()).unwrap();
    }

    let coordinator = PagingCoordinator::new(roomy(), &graph);

    let tile_count = coordinator.tiles().iter().count();
    assert_eq!(tile_count, coordinator.num_tiles());

    for tile in coordinator.tiles() {
        assert!(tile.start_node < tile.end_node);
        assert_eq!(tile.num_nodes, tile.end_node - tile.start_node);
    }
}

#[test]
fn test_paging_coordinator_limits() {
    let mut graph = CsrGraph::new();
    graph.add_edge(NodeId(0), NodeId(1), w()).unwrap();

    let coordinator = PagingCoordinator::new(roomy(), &graph);

    let limits = coordinator.limits();
    assert!(limits.total_vram > 0);
    assert!(limits.usable_vram > 0);
    assert!(limits.max_morsels > 0);
}

#[test]
fn test_paging_coordinator_empty_graph() {
    let graph = CsrGraph::new();

    let coordinator = PagingCoordinator::new(roomy(), &graph);

    assert_eq!(coordinator.num_tiles(), 0);
    assert!(coordinator.fits_in_vram());
    assert!(coordinator.get_tile_for_node(NodeId(0)).is_none());
}

#[test]
fn test_paging_with_single_tile() {
    let mut graph = CsrGraph::new();
    for i in 0..5 {
        graph.add_edge(NodeId(i), NodeId(i + 1), w()).unwrap();
    }

    let coordinator = PagingCoordinator::new(roomy(), &graph);

    assert_eq!(coordinator.num_tiles(), 1);
    let tile = coordinator.get_tile(0).unwrap();
    assert_eq!(tile.id, 0);
    assert_eq!(tile.num_nodes, 6);
}

#[test]
fn tile_size_follows_bytes_per_node() {
    // 3 nodes, 2 edges: 4 * 4 + 8 * 2 = 32 bytes, 10 per node.
    let mut graph = CsrGraph::new();
    graph.add_edge(NodeId(0), NodeId(1), w()).unwrap();
    graph.add_edge(NodeId(1), NodeId(2), w()).unwrap();
    let coordinator = PagingCoordinator::new(roomy(), &graph);
    assert_eq!(coordinator.tile_size(), DEFAULT_MORSEL_SIZE / 10);
    let limits = GpuMemoryLimits { total_vram: 0, usable_vram: 0, morsel_size: 2000, max_morsels: 1 };
    assert_eq!(PagingCoordinator::new(limits.clone(), &graph).tile_size(), 200);
    assert_eq!(PagingCoordinator::new(cramped(), &graph).tile_size(), 100);
    assert_eq!(PagingCoordinator::new(limits, &CsrGraph::new()).tile_size(), 100);
    let limits =
        GpuMemoryLimits { total_vram: 0, usable_vram: 0, morsel_size: 1_000_000, max_morsels: 1 };
    assert_eq!(PagingCoordinator::new(limits, &CsrGraph::new()).tile_size(), 1000);
}

#[test]
fn tiles_carve_the_graph_into_runs() {
    // 250 nodes in a chain with one long edge back.
    let mut edges: Vec<_> = (0..249u32).map(|i| (NodeId(i), NodeId(i + 1), w())).collect();
    edges.push((NodeId(249), NodeId(3), 2.0f32.to_bits()));
    edges.push((NodeId(120), NodeId(7), 3.0f32.to_bits()));
    let graph = CsrGraph::from_edge_list(&edges).unwrap();
    let coordinator = PagingCoordinator::new(cramped(), &graph);

    assert_eq!(coordinator.tile_size(), 100);
    assert_eq!(coordinator.num_tiles(), 3);
    let bounds: Vec<_> =
        coordinator.tiles().iter().map(|t| (t.id, t.start_node, t.end_node, t.num_nodes)).collect();
    assert_eq!(bounds, vec![(0, 0, 100, 100), (1, 100, 200, 100), (2, 200, 250, 50)]);

    let tile = coordinator.get_tile(1).unwrap();
    assert_eq!(tile.row_offsets.len(), 101);
    assert_eq!(tile.row_offsets[0], 0);
    assert_eq!(tile.row_offsets[20], 20);
    assert_eq!(tile.row_offsets[21], 22);
    assert_eq!(tile.row_offsets[100], 101);
    assert_eq!(&tile.col_indices[19..23], &[120, 121, 7, 122]);
    assert_eq!(tile.edge_weights[21], 3.0f32.to_bits());
    assert_eq!(tile.size_bytes(), 4 * (101 + 101 + 101));

    let last = coordinator.get_tile(2).unwrap();
    assert_eq!(last.row_offsets, (0..=50).collect::<Vec<u32>>());
    assert_eq!(last.col_indices[49], 3);

    assert_eq!(coordinator.get_tile_for_node(NodeId(99)).unwrap().id, 0);
    assert_eq!(coordinator.get_tile_for_node(NodeId(100)).unwrap().id, 1);
    assert_eq!(coordinator.get_tile_for_node(NodeId(249)).unwrap().id, 2);
    assert!(coordinator.get_tile_for_node(NodeId(250)).is_none());
    assert!(!coordinator.fits_in_vram());
}

#[test]
fn fits_in_vram_compares_all_tiles_with_the_budget() {
    let graph = ring(250);
    // Three tiles: 4 * (250 + 3) + 8 * 250 = 3012 bytes.
    let at = GpuMemoryLimits { total_vram: 0, usable_vram: 3012, morsel_size: 1, max_morsels: 1 };
    let below =
        GpuMemoryLimits { total_vram: 0, usable_vram: 3011, morsel_size: 1, max_morsels: 1 };
    assert!(PagingCoordinator::new(at, &graph).fits_in_vram());
    assert!(!PagingCoordinator::new(below, &graph).fits_in_vram());
}

#[test]
fn test_paged_bfs_small_graph() {
    let mut graph = CsrGraph::new();
    graph.add_edge(NodeId(0), NodeId(1), w()).unwrap();
    graph.add_edge(NodeId(1), NodeId(2), w()).unwrap();

    let result = match gpu_bfs_paged(cramped(), &graph, NodeId(0)) {
        PagedBfs::Paged(result) => result,
        PagedBfs::Resident => panic!("a graph over budget is searched tile by tile"),
    };

    assert_eq!(result.distance(NodeId(0)), Some(0));
    assert_eq!(result.distance(NodeId(1)), Some(1));
    assert_eq!(result.distance(NodeId(2)), Some(2));
    assert_eq!(result.visited_count, 3);
}

#[test]
fn test_paged_bfs_disconnected() {
    let mut graph = CsrGraph::new();
    graph.add_edge(NodeId(0), NodeId(1), w()).unwrap();
    graph.add_edge(NodeId(2), NodeId(2), w()).unwrap();

    let coordinator = PagingCoordinator::new(cramped(), &graph);
    let result = paged_bfs(&coordinator, NodeId(0));

    assert_eq!(result.distance(NodeId(0)), Some(0));
    assert_eq!(result.distance(NodeId(1)), Some(1));
    assert_eq!(result.distance(NodeId(2)), None);
    assert_eq!(result.visited_count, 2);
}

#[test]
fn test_paged_bfs_larger_graph() {
    let graph = ring(100);

    let coordinator = PagingCoordinator::new(cramped(), &graph);
    let result = paged_bfs(&coordinator, NodeId(0));

    assert_eq!(result.visited_count, 100);
    assert_eq!(result.distance(NodeId(0)), Some(0));
    assert_eq!(result.distance(NodeId(1)), Some(1));
    assert_eq!(result.distance(NodeId(50)), Some(50));
}

#[test]
fn paged_bfs_walks_a_ring_of_ten_thousand() {
    let graph = ring(10_000);
    let coordinator = PagingCoordinator::new(cramped(), &graph);
    assert_eq!(coordinator.num_tiles(), 100);
    let result = match gpu_bfs_paged(cramped(), &graph, NodeId(0)) {
        PagedBfs::Paged(result) => result,
        PagedBfs::Resident => panic!("a graph over budget is searched tile by tile"),
    };
    assert_eq!(result.visited_count, 10_000);
    assert_eq!(result.distances, (0..10_000).collect::<Vec<u32>>());
}

#[test]
fn paged_bfs_gives_shortest_distances_across_tiles() {
    // A chain of 300 nodes with shortcuts from 0 to 150 and from 150 to 299.
    let mut edges: Vec<_> = (0..299u32).map(|i| (NodeId(i), NodeId(i + 1), w())).collect();
    edges.push((NodeId(0), NodeId(150), w()));
    edges.push((NodeId(150), NodeId(299), w()));
    edges.push((NodeId(299), NodeId(298), w()));
    let graph = CsrGraph::from_edge_list(&edges).unwrap();
    let coordinator = PagingCoordinator::new(cramped(), &graph);
    let result = paged_bfs(&coordinator, NodeId(0));
    assert_eq!(result.distance(NodeId(149)), Some(149));
    assert_eq!(result.distance(NodeId(150)), Some(1));
    assert_eq!(result.distance(NodeId(200)), Some(51));
    assert_eq!(result.distance(NodeId(299)), Some(2));
    assert_eq!(result.distance(NodeId(298)), Some(3));
    assert_eq!(result.visited_count, 300);
    let from_far = paged_bfs(&coordinator, NodeId(299));
    assert_eq!(from_far.visited_count, 2);
    assert_eq!(from_far.distance(NodeId(298)), Some(1));
    assert_eq!(from_far.distance(NodeId(297)), None);
}

#[test]
fn paged_bfs_from_an_unknown_source_reaches_nothing() {
    let graph = ring(5);
    let coordinator = PagingCoordinator::new(cramped(), &graph);
    let result = paged_bfs(&coordinator, NodeId(5));
    assert_eq!(result.distances, vec![u32::MAX; 5]);
    assert_eq!(result.visited_count, 0);
    let empty = PagingCoordinator::new(cramped(), &CsrGraph::new());
    let result = paged_bfs(&empty, NodeId(0));
    assert!(result.distances.is_empty());
    assert_eq!(result.visited_count, 0);
}

#[test]
fn a_graph_within_budget_is_left_to_the_device() {
    let graph = ring(10);
    assert!(matches!(gpu_bfs_paged(roomy(), &graph, NodeId(0)), PagedBfs::Resident));
    assert!(matches!(gpu_bfs_paged(cramped(), &CsrGraph::new(), NodeId(0)), PagedBfs::Resident));
}
