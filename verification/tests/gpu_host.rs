//! Host-side parts of the device path.

use trueno_graph::gpu::bfs::{
    bfs_first_step, bfs_next_step, initial_distance_bytes, initial_distances, workgroup_count,
    BfsParams, BfsStep,
};
use trueno_graph::gpu::pagerank::{
    out_degrees, pagerank_next_step, PageRankParams, PageRankStep, DAMPING_BITS,
};
use trueno_graph::{
    CsrGraph, GpuBfsResult, GpuCsrBuffers, GpuDeviceError, GpuMemoryLimits, GpuPageRankResult,
    NodeId, DEFAULT_MORSEL_SIZE,
};

fn native(words: &[u32]) -> Vec<u8> {
    words.iter().flat_map(|w| w.to_ne_bytes()).collect()
}

#[test]
fn test_gpu_bfs_result_api() {
    let result = GpuBfsResult { distances: vec![0, 1, u32::MAX], visited_count: 2 };

    assert_eq!(result.distance(NodeId(0)), Some(0));
    assert_eq!(result.distance(NodeId(1)), Some(1));
    assert_eq!(result.distance(NodeId(2)), None);

    assert!(result.is_reachable(NodeId(0)));
    assert!(result.is_reachable(NodeId(1)));
    assert!(!result.is_reachable(NodeId(2)));
}

#[test]
fn test_gpu_device_error_display() {
    let err = GpuDeviceError::NoAdapter;
    assert_eq!(err.message(), "No compatible GPU adapter found");

    let err = GpuDeviceError::DeviceRequest("test error".to_string());
    assert_eq!(err.message(), "Failed to request GPU device: test error");
}

#[test]
fn test_fits_in_vram() {
    let limits = GpuMemoryLimits {
        total_vram: 8 * 1024 * 1024 * 1024,
        usable_vram: 5 * 1024 * 1024 * 1024,
        morsel_size: DEFAULT_MORSEL_SIZE,
        max_morsels: 40,
    };

    assert!(limits.fits_in_vram(100 * 1024 * 1024));
    assert!(limits.fits_in_vram(4 * 1024 * 1024 * 1024));
    assert!(!limits.fits_in_vram(6 * 1024 * 1024 * 1024));
}

#[test]
fn test_morsels_needed() {
    let limits = GpuMemoryLimits {
        total_vram: 8 * 1024 * 1024 * 1024,
        usable_vram: 5 * 1024 * 1024 * 1024,
        morsel_size: DEFAULT_MORSEL_SIZE,
        max_morsels: 40,
    };

    assert_eq!(limits.morsels_needed(128 * 1024 * 1024), 1);
    assert_eq!(limits.morsels_needed(256 * 1024 * 1024), 2);
    assert_eq!(limits.morsels_needed(200 * 1024 * 1024), 2);
}

#[test]
fn device_error_messages_carry_their_detail() {
    let err = GpuDeviceError::UnsupportedFeature("timestamps".to_string());
    assert_eq!(err.message(), "GPU feature not supported: timestamps");
    let err = GpuDeviceError::BufferCreate("out of memory".to_string());
    assert_eq!(err.message(), "Failed to create GPU buffer: out of memory");
    let err = GpuDeviceError::BufferMap("lost".to_string());
    assert_eq!(err.message(), "Failed to map GPU buffer: lost");
    assert_eq!(GpuDeviceError::DeviceRequest(String::new()).message(), "Failed to request GPU device: ");
}

#[test]
fn detect_takes_seventy_percent_and_whole_morsels() {
    let limits = GpuMemoryLimits::detect(1024 * 1024 * 1024);
    assert_eq!(limits.total_vram, 1_073_741_824);
    assert_eq!(limits.usable_vram, 751_619_276);
    assert_eq!(limits.morsel_size, 134_217_728);
    assert_eq!(limits.max_morsels, 5);
}

#[test]
fn detect_keeps_one_morsel_on_small_devices() {
    let limits = GpuMemoryLimits::detect(1000);
    assert_eq!(limits.usable_vram, 700);
    assert_eq!(limits.max_morsels, 1);
    let limits = GpuMemoryLimits::detect(0);
    assert_eq!(limits.usable_vram, 0);
    assert_eq!(limits.max_morsels, 1);
    let limits = GpuMemoryLimits::detect(u64::MAX);
    assert_eq!(limits.usable_vram, 12_912_720_851_596_686_130);
}

#[test]
fn morsels_needed_rounds_up() {
    let limits = GpuMemoryLimits::detect(1 << 32);
    assert_eq!(limits.morsels_needed(0), 0);
    assert_eq!(limits.morsels_needed(1), 1);
    assert_eq!(limits.morsels_needed(DEFAULT_MORSEL_SIZE + 1), 2);
}

#[test]
fn recommended_tile_size_has_floor_and_fallback() {
    let limits = GpuMemoryLimits::detect(1 << 32);
    assert_eq!(limits.recommended_tile_size(0), 1000);
    assert_eq!(limits.recommended_tile_size(16), 8_388_608);
    assert_eq!(limits.recommended_tile_size(DEFAULT_MORSEL_SIZE), 100);
    assert_eq!(limits.recommended_tile_size(1_342_178), 100);
    assert_eq!(limits.recommended_tile_size(1_342_177), 100);
    assert_eq!(limits.recommended_tile_size(1_000_000), 134);
}

#[test]
fn from_distances_counts_reached_nodes() {
    let result = GpuBfsResult::from_distances(vec![3, u32::MAX, 0, u32::MAX, 1]);
    assert_eq!(result.visited_count, 3);
    assert_eq!(result.distances, vec![3, u32::MAX, 0, u32::MAX, 1]);
    assert_eq!(result.distance(NodeId(5)), None);
    assert_eq!(GpuBfsResult::from_distances(vec![]).visited_count, 0);
}

#[test]
fn test_gpu_pagerank_result_api() {
    let result = GpuPageRankResult {
        scores: vec![0.1f32.to_bits(), 0.3f32.to_bits(), 0.6f32.to_bits()],
        iterations: 20,
    };

    assert_eq!(result.score(0).map(f32::from_bits), Some(0.1));
    assert_eq!(result.score(1).map(f32::from_bits), Some(0.3));
    assert_eq!(result.score(2).map(f32::from_bits), Some(0.6));
    assert_eq!(result.score(3), None);
}

#[test]
fn readback_bytes_become_words() {
    let bytes = native(&[0, 2, u32::MAX, 1, 0x0102_0304]);
    let result = GpuBfsResult::from_readback(&bytes);
    assert_eq!(result.distances, vec![0, 2, u32::MAX, 1, 0x0102_0304]);
    assert_eq!(result.visited_count, 4);
    let scores = GpuPageRankResult::from_readback(&native(&[0.25f32.to_bits(), 7]), 3);
    assert_eq!(scores.scores, vec![0.25f32.to_bits(), 7]);
    assert_eq!(scores.iterations, 3);
    // A last word that is only partly there is completed with zero bytes.
    let mut short = native(&[9, 0x0A0B_0C0D]);
    short.truncate(6);
    let mut padded = short.clone();
    padded.extend_from_slice(&[0, 0]);
    let expected = u32::from_ne_bytes([padded[4], padded[5], padded[6], padded[7]]);
    assert_eq!(GpuBfsResult::from_readback(&short).distances, vec![9, expected]);
    assert!(GpuBfsResult::from_readback(&[]).distances.is_empty());
}

#[test]
fn csr_buffers_hold_the_arrays_as_bytes() {
    let edges = [
        (NodeId(0), NodeId(1), 1.0f32.to_bits()),
        (NodeId(0), NodeId(2), 0.0f32.to_bits()),
        (NodeId(2), NodeId(0), 2.5f32.to_bits()),
    ];
    let graph = CsrGraph::from_edge_list(&edges).unwrap();
    let buffers = GpuCsrBuffers::from_csr_graph(&graph);
    assert_eq!(buffers.num_nodes(), 3);
    assert_eq!(buffers.num_edges(), 3);
    assert_eq!(buffers.row_offsets, native(&[0, 2, 2, 3]));
    assert_eq!(buffers.col_indices, native(&[1, 2, 0]));
    assert_eq!(
        buffers.edge_weights,
        Some(native(&[1.0f32.to_bits(), 0.0f32.to_bits(), 2.5f32.to_bits()]))
    );
}

#[test]
fn csr_buffers_leave_out_weights_that_are_all_zero() {
    let edges = [
        (NodeId(0), NodeId(1), 0.0f32.to_bits()),
        (NodeId(1), NodeId(0), (-0.0f32).to_bits()),
    ];
    let graph = CsrGraph::from_edge_list(&edges).unwrap();
    let buffers = GpuCsrBuffers::from_csr_graph(&graph);
    assert_eq!(buffers.edge_weights, None);
    assert_eq!(buffers.col_indices, native(&[1, 0]));
    let empty = GpuCsrBuffers::from_csr_graph(&CsrGraph::new());
    assert_eq!(empty.row_offsets, native(&[0]));
    assert!(empty.col_indices.is_empty());
    assert_eq!(empty.edge_weights, None);
}

#[test]
fn workgroups_cover_every_node() {
    assert_eq!(workgroup_count(0), 1);
    assert_eq!(workgroup_count(1), 1);
    assert_eq!(workgroup_count(256), 1);
    assert_eq!(workgroup_count(257), 2);
    assert_eq!(workgroup_count(10_000), 40);
    assert_eq!(workgroup_count(u32::MAX), 16_777_216);
}

#[test]
fn bfs_params_are_four_words() {
    let params = BfsParams { num_nodes: 7, current_level: 3, source_node: 2, padding: 0 };
    assert_eq!(params.to_bytes(), native(&[7, 3, 2, 0]));
}

#[test]
fn initial_distances_mark_the_source() {
    assert_eq!(initial_distances(4, NodeId(2)), vec![u32::MAX, u32::MAX, 0, u32::MAX]);
    assert_eq!(initial_distances(2, NodeId(2)), vec![u32::MAX, u32::MAX]);
    assert!(initial_distances(0, NodeId(0)).is_empty());
    assert_eq!(initial_distance_bytes(3, NodeId(0)), native(&[0, u32::MAX, u32::MAX]));
}

#[test]
fn bfs_driver_runs_level_by_level() {
    let dispatch = |level| BfsStep::Dispatch {
        params: BfsParams { num_nodes: 300, current_level: level, source_node: 5, padding: 0 },
        workgroups: 2,
    };
    assert_eq!(bfs_first_step(300, NodeId(5)), dispatch(0));
    assert_eq!(bfs_first_step(0, NodeId(5)), BfsStep::ReadBack);
    assert_eq!(bfs_next_step(300, NodeId(5), 0, 1), dispatch(1));
    assert_eq!(bfs_next_step(300, NodeId(5), 41, 7), dispatch(42));
    assert_eq!(bfs_next_step(300, NodeId(5), 41, 0), BfsStep::ReadBack);
    assert_eq!(bfs_next_step(300, NodeId(5), 298, 1), dispatch(299));
    assert_eq!(bfs_next_step(300, NodeId(5), 299, 1), BfsStep::ReadBack);
    assert_eq!(bfs_next_step(1, NodeId(0), 0, 1), BfsStep::ReadBack);
    assert_eq!(bfs_next_step(u32::MAX, NodeId(0), u32::MAX, 1), BfsStep::ReadBack);
}

#[test]
fn out_degrees_count_outgoing_edges() {
    let edges: Vec<_> = [(0, 1), (0, 2), (0, 2), (2, 0), (4, 4)]
        .iter()
        .map(|&(s, t)| (NodeId(s), NodeId(t), 1.0f32.to_bits()))
        .collect();
    let graph = CsrGraph::from_edge_list(&edges).unwrap();
    assert_eq!(out_degrees(&graph), vec![3, 0, 1, 0, 1]);
    assert!(out_degrees(&CsrGraph::new()).is_empty());
}

#[test]
fn pagerank_driver_runs_a_fixed_number_of_iterations() {
    assert_eq!(DAMPING_BITS, 0.85f32.to_bits());
    let iterate = |iteration| PageRankStep::Iterate {
        params: PageRankParams { num_nodes: 1000, damping: DAMPING_BITS, iteration, padding: 0 },
        workgroups: 4,
    };
    assert_eq!(pagerank_next_step(1000, DAMPING_BITS, 20, 0), iterate(0));
    assert_eq!(pagerank_next_step(1000, DAMPING_BITS, 20, 19), iterate(19));
    assert_eq!(pagerank_next_step(1000, DAMPING_BITS, 20, 20), PageRankStep::ReadBack);
    assert_eq!(pagerank_next_step(1000, DAMPING_BITS, 0, 0), PageRankStep::ReadBack);
    let params = PageRankParams { num_nodes: 3, damping: DAMPING_BITS, iteration: 1, padding: 0 };
    assert_eq!(params.to_bytes(), native(&[3, DAMPING_BITS, 1, 0]));
}
