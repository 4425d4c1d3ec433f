use diskann_layout::data_model::{
    GraphHeader, GraphLayoutVersion, GraphMetadata, LayoutFingerprint,
};
use diskann_layout::layout::PhysicalLayout;
use diskann_layout::search::disk_sector_graph::{
    DiskSectorGraph, PhysicalReadMetrics, ReadRequest, SectorGraphError, DEFAULT_DISK_SECTOR_LEN,
};
use std::sync::Arc;

fn test_initialize_disk_sector_graph(
    num_nodes_per_sector: u64,
    num_sectors_per_node: usize,
) -> DiskSectorGraph {
    DiskSectorGraph {
        sectors_data: vec![0; 512],
        cur_sector_idx: 0,
        num_nodes_per_sector,
        node_len: 32,
        max_n_batch_sector_read: 4,
        num_sectors_per_node,
        block_size: 64,
        physical_layout: None,
        loaded_node_locations: Vec::new(),
    }
}

fn layout(mapping: Vec<u32>) -> Arc<PhysicalLayout> {
    Arc::new(PhysicalLayout::from_mapping(
        mapping,
        LayoutFingerprint::new(1).unwrap(),
    ))
}

/// Reads nodes of an index file.
fn read_vertices(
    graph: &mut DiskSectorGraph,
    file: &[u8],
    ids: &[u32],
) -> Result<PhysicalReadMetrics, SectorGraphError> {
    let plan = graph.read_vertices(ids)?;
    for request in &plan.requests {
        let start = request.offset as usize;
        graph.fill(request, &file[start..start + request.buffer_len]);
    }
    graph.complete_read(&plan)
}

#[test]
fn test_new_disk_sector_graph_multi_node_per_sector() {
    let metadata = GraphMetadata::new(1000, 32, 500, 32, 2, 20, 50, 1024, 256);
    let header = GraphHeader::new(metadata, 64, GraphLayoutVersion::new(1, 0));
    let graph = DiskSectorGraph::new(&header, 2);
    assert_eq!(graph.sectors_data.len(), 128);
    assert_eq!(graph.num_sectors_per_node, 1);
    assert_eq!(graph.num_nodes_per_sector, 2);
}

#[test]
fn test_new_disk_sector_graph_multi_sector_per_node() {
    let metadata = GraphMetadata::new(1000, 32, 500, 128, 0, 20, 50, 1024, 256);
    let header = GraphHeader::new(metadata, 64, GraphLayoutVersion::new(1, 0));
    let graph = DiskSectorGraph::new(&header, 2);
    assert_eq!(graph.sectors_data.len(), 256);
    assert_eq!(graph.num_sectors_per_node, 2);
    assert_eq!(graph.num_nodes_per_sector, 0);
}

#[test]
fn test_new_disk_sector_graph_old_version_data() {
    let metadata = GraphMetadata::new(1000, 32, 500, 128, 0, 20, 50, 1024, 256);
    let header = GraphHeader::new(metadata, 9999, GraphLayoutVersion::new(0, 0));
    let graph = DiskSectorGraph::new(&header, 2);
    assert_eq!(graph.block_size, DEFAULT_DISK_SECTOR_LEN);
}

#[test]
fn get_sector_buf_test() {
    let graph = test_initialize_disk_sector_graph(2, 1);
    let sector_buf = graph.get_sector_buf(0);
    assert_eq!(sector_buf.len(), 64);
}

#[test]
fn get_node_offset_test_multi_node_per_sector() {
    let graph = test_initialize_disk_sector_graph(4, 1);

    assert_eq!(graph.get_node_offset(0).unwrap(), 0);
    assert_eq!(graph.get_node_offset(1).unwrap(), 32);
    assert_eq!(graph.get_node_offset(2).unwrap(), 64);
    assert_eq!(graph.get_node_offset(3).unwrap(), 96);
    assert_eq!(graph.get_node_offset(4).unwrap(), 0);
    assert_eq!(graph.get_node_offset(5).unwrap(), 32);
    assert_eq!(graph.get_node_offset(6).unwrap(), 64);
    assert_eq!(graph.get_node_offset(7).unwrap(), 96);
}

#[test]
fn get_node_offset_test_multi_sector_per_node() {
    let graph = test_initialize_disk_sector_graph(0, 2);

    assert_eq!(graph.get_node_offset(0).unwrap(), 0);
    assert_eq!(graph.get_node_offset(1).unwrap(), 0);
    assert_eq!(graph.get_node_offset(2).unwrap(), 0);
    assert_eq!(graph.get_node_offset(3).unwrap(), 0);
    assert_eq!(graph.get_node_offset(4).unwrap(), 0);
    assert_eq!(graph.get_node_offset(5).unwrap(), 0);
}

#[test]
fn node_sector_index_test_multi_node_per_sector() {
    let graph = test_initialize_disk_sector_graph(4, 1);

    assert_eq!(graph.node_sector_index(0).unwrap(), 1);
    assert_eq!(graph.node_sector_index(3).unwrap(), 1);
    assert_eq!(graph.node_sector_index(4).unwrap(), 2);
    assert_eq!(graph.node_sector_index(5).unwrap(), 2);
    assert_eq!(graph.node_sector_index(7).unwrap(), 2);
    assert_eq!(graph.node_sector_index(8).unwrap(), 3);
    assert_eq!(graph.node_sector_index(1023).unwrap(), 256);
    assert_eq!(graph.node_sector_index(1024).unwrap(), 257);
    assert_eq!(graph.node_sector_index(2047).unwrap(), 512);
    assert_eq!(graph.node_sector_index(2048).unwrap(), 513);
}

#[test]
fn node_sector_index_test_multi_sector_per_node() {
    let graph = test_initialize_disk_sector_graph(0, 2);

    assert_eq!(graph.node_sector_index(0).unwrap(), 1);
    assert_eq!(graph.node_sector_index(3).unwrap(), 7);
    assert_eq!(graph.node_sector_index(4).unwrap(), 9);
    assert_eq!(graph.node_sector_index(5).unwrap(), 11);
    assert_eq!(graph.node_sector_index(7).unwrap(), 15);
    assert_eq!(graph.node_sector_index(8).unwrap(), 17);
    assert_eq!(graph.node_sector_index(1023).unwrap(), 2047);
    assert_eq!(graph.node_sector_index(1024).unwrap(), 2049);
    assert_eq!(graph.node_sector_index(2047).unwrap(), 4095);
    assert_eq!(graph.node_sector_index(2048).unwrap(), 4097);
}

#[test]
fn test_read_graph_max_sectors() {
    let disk_sector_graph = test_initialize_disk_sector_graph(0, 2);

    // Try to read more sectors than the maximum allowed
    let sectors_to_fetch = vec![1, 2, 3, 4, 5, 6];
    let result = disk_sector_graph.read_graph(&sectors_to_fetch);

    // Check that an error is returned
    assert_eq!(
        result,
        Err(SectorGraphError::TooManySectors {
            requested: 6,
            available: 4
        })
    );
}

#[test]
fn mapped_reads_deduplicate_blocks_and_coalesce_adjacent_ranges() {
    let block_size = 64usize;
    let node_len = 16usize;
    let mapping = vec![0, 1, 4, 5, 2, 3, 6, 7];
    let metadata = GraphMetadata::new(8, 1, 0, node_len as u64, 4, 0, 0, 192, 0);
    let header = GraphHeader::new(
        metadata,
        block_size as u64,
        GraphHeader::graph_aware_layout_version(),
    );
    let mut data = vec![0u8; block_size * 3];
    for (logical, &physical) in mapping.iter().enumerate() {
        let offset = block_size
            + (physical as usize / 4) * block_size
            + (physical as usize % 4) * node_len;
        data[offset] = logical as u8;
    }
    let mut graph = DiskSectorGraph::new_with_layout(&header, 4, Some(layout(mapping)));

    let requested = [0, 1, 4, 2];
    let metrics = read_vertices(&mut graph, &data, &requested).unwrap();
    assert_eq!(
        metrics,
        PhysicalReadMetrics {
            read_requests: 1,
            blocks_read: 2,
            bytes_read: 128,
        }
    );
    for (index, logical) in requested.into_iter().enumerate() {
        assert_eq!(
            graph.node_disk_buf(index, logical).unwrap()[0],
            logical as u8
        );
    }

    graph.reset();
    let metrics = read_vertices(&mut graph, &data, &[0, 1, 4]).unwrap();
    assert_eq!(metrics.read_requests, 1);
    assert_eq!(metrics.blocks_read, 1);
    assert_eq!(metrics.bytes_read, 64);
}

#[test]
fn test_disk_sector_graph_deref() {
    let graph = test_initialize_disk_sector_graph(1, 1);
    assert_eq!(graph.data().len(), 512);
}

#[test]
fn test_reconfigure_grows_buffer() {
    let mut graph = test_initialize_disk_sector_graph(2, 1);
    assert_eq!(graph.max_n_batch_sector_read, 4);

    // Reconfigure to larger batch: buffer must grow beyond initial 512 bytes
    graph.reconfigure(16);
    assert_eq!(graph.max_n_batch_sector_read, 16);
    assert_eq!(graph.sectors_data.len(), 16 * 64);
}

#[test]
fn test_reconfigure_noop_for_smaller_size() {
    let mut graph = test_initialize_disk_sector_graph(2, 1);
    let original_len = graph.sectors_data.len();

    // Reconfigure with same or smaller size should be a no-op
    graph.reconfigure(4);
    assert_eq!(graph.max_n_batch_sector_read, 4);
    assert_eq!(graph.sectors_data.len(), original_len);

    graph.reconfigure(2);
    assert_eq!(graph.max_n_batch_sector_read, 4);
    assert_eq!(graph.sectors_data.len(), original_len);
}

#[test]
fn test_new_disk_sector_graph_zero_block_size_defaults() {
    let metadata = GraphMetadata::new(1000, 32, 500, 32, 2, 20, 50, 1024, 256);
    // block_size = 0 should fall back to DEFAULT_DISK_SECTOR_LEN regardless of version
    let header = GraphHeader::new(metadata, 0, GraphLayoutVersion::new(1, 0));
    let graph = DiskSectorGraph::new(&header, 2);
    assert_eq!(graph.block_size, DEFAULT_DISK_SECTOR_LEN);
}

fn small_header(node_len: u64, nodes_per_block: u64) -> GraphHeader {
    let metadata = GraphMetadata::new(6, 1, 0, node_len, nodes_per_block, 0, 0, 0, 0);
    GraphHeader::new(metadata, 64, GraphLayoutVersion::new(1, 0))
}

#[test]
fn unmapped_reads_take_one_request_per_node() {
    let mut graph = DiskSectorGraph::new(&small_header(32, 2), 4);
    let file: Vec<u8> = (0..=255).collect();
    let metrics = read_vertices(&mut graph, &file, &[3, 0]).unwrap();
    assert_eq!(
        metrics,
        PhysicalReadMetrics {
            read_requests: 2,
            blocks_read: 2,
            bytes_read: 128,
        }
    );
    assert_eq!(graph.cur_sector_idx, 2);
    assert_eq!(graph.node_disk_buf(0, 3).unwrap(), &file[160..192]);
    assert_eq!(graph.node_disk_buf(1, 0).unwrap(), &file[64..96]);

    let requests = graph.read_graph(&[3]).unwrap();
    assert_eq!(
        requests,
        [ReadRequest {
            offset: 192,
            buffer_start: 128,
            buffer_len: 64
        }]
    );
    graph.complete_read_graph(1);
    assert_eq!(graph.cur_sector_idx, 3);
}

#[test]
fn batches_are_limited() {
    let mut graph = DiskSectorGraph::new(&small_header(32, 2), 2);
    assert!(graph.read_vertices(&[0, 1, 2]).is_err());

    let mut graph = DiskSectorGraph::new_with_layout(
        &small_header(32, 2),
        2,
        Some(layout(vec![5, 4, 3, 2, 1, 0])),
    );
    assert_eq!(
        graph.read_vertices(&[0, 1, 2]).unwrap_err(),
        SectorGraphError::TooManyVertices {
            requested: 3,
            max: 2
        }
    );
    assert_eq!(
        graph.read_vertices(&[6]).unwrap_err(),
        SectorGraphError::VertexOutsideLayout { vertex_id: 6 }
    );
    assert_eq!(
        graph.node_sector_index(6).unwrap_err(),
        SectorGraphError::VertexOutsideLayout { vertex_id: 6 }
    );
    assert_eq!(
        graph.get_node_offset(7).unwrap_err(),
        SectorGraphError::VertexOutsideLayout { vertex_id: 7 }
    );
    assert_eq!(
        graph.node_disk_buf(0, 0).unwrap_err(),
        SectorGraphError::NoLocation {
            node_index_local: 0
        }
    );
}

#[test]
fn mapped_nodes_may_span_blocks() {
    let mut graph =
        DiskSectorGraph::new_with_layout(&small_header(100, 0), 3, Some(layout(vec![2, 0, 1])));
    let file: Vec<u8> = (0..448).map(|at| (at % 251) as u8).collect();
    // Slots 2 and 0 lie apart: two requests of two blocks each.
    let metrics = read_vertices(&mut graph, &file, &[0, 1]).unwrap();
    assert_eq!(metrics.read_requests, 2);
    assert_eq!(metrics.blocks_read, 4);
    assert_eq!(metrics.bytes_read, 256);
    assert_eq!(graph.node_disk_buf(0, 0).unwrap(), &file[320..420]);
    assert_eq!(graph.node_disk_buf(1, 1).unwrap(), &file[64..164]);
}

#[test]
fn unmapped_nodes_may_span_sectors() {
    let mut graph = DiskSectorGraph::new(&small_header(100, 0), 3);
    let file: Vec<u8> = (0..448).map(|at| (at % 251) as u8).collect();
    read_vertices(&mut graph, &file, &[2, 0, 1]).unwrap();
    assert_eq!(graph.node_disk_buf(0, 2).unwrap(), &file[320..420]);
    assert_eq!(graph.node_disk_buf(1, 0).unwrap(), &file[64..164]);
    assert_eq!(graph.node_disk_buf(2, 1).unwrap(), &file[192..292]);
}
