use diskann_layout::data_model::{GraphHeader, GraphMetadata, LayoutFingerprint};
use diskann_layout::layout::estimate::estimate;
use diskann_layout::layout::fields::{expected_index_len, read_index_header};
use diskann_layout::layout::image::assemble_output;
use diskann_layout::layout::index::MappedIndex;
use diskann_layout::layout::mapping::make_mapping;
use diskann_layout::layout::ordering::order_blocks;
use diskann_layout::layout::packing::pack_nodes;
use diskann_layout::layout::quality::quality;
use diskann_layout::layout::rewrite::{elapsed_ms, PathFacts, RewrittenIndex};
use diskann_layout::layout::sidecar::{
    binding_digest, digest_fingerprint, mapping_bytes_digest, validate_mapping, write_sidecar,
    SidecarContents,
};
use diskann_layout::layout::{
    default_sidecar_path, estimate_graph_aware_layout, load_physical_layout,
    rewrite_graph_aware_layout, rewrite_graph_aware_layout_to, InvalidLayout, LayoutError,
    LayoutReport, PhaseTimings, PhysicalLayout, StructuralFields,
};
use diskann_layout::search::disk_sector_graph::DiskSectorGraph;
use sha2::{Digest, Sha256};

const BLOCK_SIZE: u64 = 256;
const NODE_LEN: u64 = 32;

const FREE: PathFacts = PathFacts {
    output_exists: false,
    sidecar_exists: false,
    paths_distinct: true,
};

fn fixture(adjacency: &[&[u32]]) -> Vec<u8> {
    fixture_with_geometry(adjacency, BLOCK_SIZE, NODE_LEN, BLOCK_SIZE / NODE_LEN)
}

fn fixture_with_geometry(
    adjacency: &[&[u32]],
    block_size: u64,
    node_len: u64,
    nodes_per_block: u64,
) -> Vec<u8> {
    let points = adjacency.len() as u64;
    let data_blocks = if nodes_per_block > 0 {
        points.div_ceil(nodes_per_block)
    } else {
        points * node_len.div_ceil(block_size)
    };
    let len = (data_blocks + 1) * block_size;
    let metadata = GraphMetadata::new(points, 2, 0, node_len, nodes_per_block, 0, 0, len, 0);
    let header = GraphHeader::new(metadata, block_size, GraphHeader::current_layout_version());
    let mut file = vec![0u8; len as usize];
    write_at(&mut file, 8, &header.to_bytes().unwrap());
    for (logical, neighbors) in adjacency.iter().enumerate() {
        let offset = if nodes_per_block > 0 {
            let block = logical as u64 / nodes_per_block;
            let within = logical as u64 % nodes_per_block;
            block_size + block * block_size + within * node_len
        } else {
            block_size + logical as u64 * node_len.div_ceil(block_size) * block_size
        };
        let mut record = Vec::new();
        record.extend_from_slice(&(logical as f32).to_le_bytes());
        record.extend_from_slice(&(-(logical as f32)).to_le_bytes());
        record.extend_from_slice(&(neighbors.len() as u32).to_le_bytes());
        for &neighbor in *neighbors {
            record.extend_from_slice(&neighbor.to_le_bytes());
        }
        write_at(&mut file, offset as usize, &record);
    }
    file
}

fn write_at(file: &mut [u8], offset: usize, bytes: &[u8]) {
    file[offset..offset + bytes.len()].copy_from_slice(bytes);
}

fn rewrite(source: &[u8]) -> Result<(LayoutReport, RewrittenIndex), LayoutError> {
    rewrite_graph_aware_layout(source, "source.index", "output.index", FREE)
}

fn invalid<T>(result: Result<T, LayoutError>) -> InvalidLayout {
    match result {
        Err(LayoutError::Invalid(fault)) => fault,
        Err(other) => panic!("unexpected error {other:?}"),
        Ok(_) => panic!("unexpected success"),
    }
}

#[test]
fn packing_and_mapping_are_deterministic_bijections() {
    let source = fixture(&[&[1, 2], &[2, 3], &[0], &[4], &[5], &[3], &[0]]);
    let index = MappedIndex::open(&source).unwrap();
    let first_blocks = pack_nodes(&index, 3).unwrap();
    let second_blocks = pack_nodes(&index, 3).unwrap();
    assert_eq!(first_blocks, second_blocks);
    assert_eq!(first_blocks[0], vec![0, 1, 2]);
    let order = order_blocks(&index, &first_blocks).unwrap();
    let mapping = make_mapping(&first_blocks, &order, 7).unwrap();
    validate_mapping(&mapping, 7).unwrap();
}

#[test]
fn block_ordering_uses_weights_ties_and_lowest_restart() {
    let source = fixture(&[&[3, 2], &[3], &[], &[2, 5], &[], &[]]);
    let index = MappedIndex::open(&source).unwrap();
    let blocks = vec![vec![0, 1], vec![2], vec![3], vec![4], vec![5]];

    assert_eq!(order_blocks(&index, &blocks).unwrap(), vec![0, 2, 1, 3, 4]);
}

#[test]
fn rewrite_preserves_every_record_byte_and_sets_fingerprint() {
    let source = fixture(&[&[2], &[0, 2], &[1], &[2], &[0]]);

    let (_, rewritten) = rewrite(&source).unwrap();
    let output = &rewritten.output;
    let layout = load_physical_layout(output, output.len() as u64, &rewritten.sidecar)
        .unwrap()
        .unwrap();
    let source_index = MappedIndex::open(&source).unwrap();
    for logical in 0..5u32 {
        let source_range = source_index.record_range(logical).unwrap();
        let output_range = source_index
            .record_range(layout.physical_slot(logical).unwrap())
            .unwrap();
        assert_eq!(&source[source_range], &output[output_range]);
    }
    let header = read_index_header(output, output.len() as u64).unwrap();
    assert_eq!(
        *header.layout_version(),
        GraphHeader::graph_aware_layout_version()
    );
    assert!(header.metadata().layout_fingerprint().is_some());
}

#[test]
fn quality_calculation_uses_physical_blocks() {
    let source = fixture(&[&[1], &[0], &[3], &[2]]);
    let index = MappedIndex::open(&source).unwrap();
    let (quality, edges) = quality(&index, &[0, 1, 2, 3], 2);
    assert_eq!(edges, 4);
    assert_eq!(quality.same_block_edges as f64 / edges as f64, 1.0);
    assert_eq!(
        quality.graph_edge_block_distance_sum as f64 / edges as f64,
        0.0
    );
}

#[test]
fn rewrite_rejects_graph_aware_source() {
    let mut source = fixture(&[&[]]);
    let header = read_index_header(&source, source.len() as u64).unwrap();
    let mut metadata = header.metadata().clone();
    metadata.set_layout_fingerprint(LayoutFingerprint::new(7).unwrap());
    let header = GraphHeader::new(
        metadata,
        BLOCK_SIZE,
        GraphHeader::graph_aware_layout_version(),
    );
    write_at(&mut source, 8, &header.to_bytes().unwrap());

    assert_eq!(invalid(rewrite(&source)), InvalidLayout::AlreadyGraphAware);
}

#[test]
fn malformed_and_wrong_sidecars_are_rejected() {
    let source_a = fixture(&[&[1], &[2], &[0]]);
    let source_b = fixture(&[&[2], &[0], &[1]]);
    let (_, a) = rewrite(&source_a).unwrap();
    let (_, b) = rewrite(&source_b).unwrap();
    let len = a.output.len() as u64;

    assert!(load_physical_layout(&a.output, len, &b.sidecar).is_err());

    let mut bytes = a.sidecar.clone();
    let last = bytes.len() - 1;
    bytes[last] ^= 1;
    assert!(load_physical_layout(&a.output, len, &bytes).is_err());
}

#[test]
fn rewrite_supports_multi_block_records() {
    let source = fixture_with_geometry(&[&[1], &[2], &[0]], 128, 160, 0);

    let (_, rewritten) = rewrite(&source).unwrap();
    let output = &rewritten.output;
    let layout = load_physical_layout(output, output.len() as u64, &rewritten.sidecar)
        .unwrap()
        .unwrap();
    let source_index = MappedIndex::open(&source).unwrap();
    for logical in 0..3 {
        let source_range = source_index.record_range(logical).unwrap();
        let output_range = source_index
            .record_range(layout.physical_slot(logical).unwrap())
            .unwrap();
        assert_eq!(&source[source_range], &output[output_range]);
    }
}

#[test]
fn reports_describe_the_rewrite() {
    let source = fixture_with_geometry(&[&[3], &[0], &[1], &[2]], 256, 128, 2);
    let (report, rewritten) = rewrite(&source).unwrap();
    assert_eq!(report.source_index, "source.index");
    assert_eq!(report.output_index, "output.index");
    assert_eq!(report.sidecar, "output.index.layout");
    assert_eq!(report.source_size, 768);
    assert_eq!(report.output_size, rewritten.output.len() as u64);
    assert_eq!((report.num_points, report.num_edges), (4, 4));
    assert_eq!((report.num_blocks, report.capacity), (2, 2));
    assert_eq!((report.block_size, report.node_length), (256, 128));
    assert_eq!(report.mapping_bytes, 16);

    // Nodes 0 and 3 are packed together, then 1 and 2.
    assert_eq!(rewritten.mapping, [0, 2, 3, 1]);
    assert_eq!(report.before.same_block_edges, 2);
    assert_eq!(report.before.graph_edge_block_distance_sum, 2);
    assert_eq!(report.after.same_block_edges, 2);
    assert_eq!(report.after.edges, 4);
}

#[test]
fn percentiles_are_ranked_distances() {
    // One node per block: distances 1, 1, 1 and 3.
    let source = fixture_with_geometry(&[&[1], &[2], &[3], &[0]], 256, 160, 1);
    let index = MappedIndex::open(&source).unwrap();
    let (quality, _) = quality(&index, &[0, 1, 2, 3], 1);
    assert_eq!(quality.same_block_edges, 0);
    assert_eq!(quality.graph_edge_block_distance_sum, 6);
    assert_eq!(quality.graph_edge_block_distance_p50, 1);
    assert_eq!(quality.graph_edge_block_distance_p95, 3);
}

#[test]
fn existing_and_repeated_paths_are_refused() {
    let source = fixture(&[&[]]);
    let run = |facts| rewrite_graph_aware_layout_to(&source, "s", "o", "l", facts);
    let exists = run(PathFacts {
        output_exists: true,
        ..FREE
    });
    assert!(matches!(exists, Err(LayoutError::AlreadyExists(path)) if path == "o"));
    let exists = run(PathFacts {
        sidecar_exists: true,
        ..FREE
    });
    assert!(matches!(exists, Err(LayoutError::AlreadyExists(path)) if path == "l"));
    let repeated = run(PathFacts {
        paths_distinct: false,
        ..FREE
    });
    assert_eq!(invalid(repeated), InvalidLayout::PathsNotDistinct);
}

fn open_changed(change: impl Fn(&mut GraphMetadata)) -> InvalidLayout {
    let mut source = fixture(&[&[1], &[0]]);
    let header = read_index_header(&source, source.len() as u64).unwrap();
    let mut metadata = header.metadata().clone();
    change(&mut metadata);
    let header = GraphHeader::new(metadata, BLOCK_SIZE, *header.layout_version());
    write_at(&mut source, 8, &header.to_bytes().unwrap());
    invalid(MappedIndex::open(&source))
}

#[test]
fn broken_sources_are_refused() {
    assert_eq!(
        invalid(MappedIndex::open(&[0; 103])),
        InvalidLayout::HeaderTruncated
    );
    assert_eq!(
        open_changed(|m| m.num_pts = 0),
        InvalidLayout::PointCount
    );
    assert_eq!(
        open_changed(|m| m.medoid = 2),
        InvalidLayout::MedoidOutOfRange
    );
    assert_eq!(
        open_changed(|m| m.set_layout_fingerprint(LayoutFingerprint::new(1).unwrap())),
        InvalidLayout::LegacyFingerprint
    );
    assert_eq!(open_changed(|m| m.node_len = 0), InvalidLayout::ZeroGeometry);
    assert_eq!(
        open_changed(|m| m.associated_data_length = 32),
        InvalidLayout::AssociatedData
    );
    assert!(matches!(
        open_changed(|m| m.num_pts = 100),
        InvalidLayout::IndexLength { actual: 512, .. }
    ));

    let mut source = fixture(&[&[1], &[0]]);
    write_at(&mut source, 8 + 88, &9u32.to_le_bytes());
    assert_eq!(
        invalid(rewrite(&source)),
        InvalidLayout::UnsupportedSourceVersion { major: 9, minor: 0 }
    );

    // Neighbour counts that are too large wherever they are read.
    let mut source = fixture(&[&[1], &[0]]);
    write_at(&mut source, 256, &[0xff; 32]);
    assert_eq!(
        invalid(MappedIndex::open(&source)),
        InvalidLayout::VectorWidth
    );
}

#[test]
fn records_beyond_the_index_are_refused() {
    let source = fixture(&[&[1], &[0]]);
    let index = MappedIndex::open(&source).unwrap();
    assert_eq!(index.record_range(1).unwrap(), 288..320);
    assert_eq!(index.neighbors(0), [1]);
    assert_eq!(
        invalid(index.record_range(8)),
        InvalidLayout::RecordBeyondIndex { slot: 8 }
    );
}

#[test]
fn every_damage_to_a_sidecar_is_noticed() {
    let source = fixture(&[&[1], &[2], &[0]]);
    let (_, rewritten) = rewrite(&source).unwrap();
    let len = rewritten.output.len() as u64;
    let load = |sidecar: &[u8]| load_physical_layout(&rewritten.output, len, sidecar);
    let layout = load(&rewritten.sidecar).unwrap().unwrap();
    assert_eq!(layout.mapping(), rewritten.mapping);
    assert_eq!(layout.fingerprint(), rewritten.fingerprint);
    assert_eq!((layout.len(), layout.memory_bytes()), (3, 12));
    assert!(!layout.is_empty());
    assert_eq!(layout.physical_slot(3), None);

    for at in 0..rewritten.sidecar.len() {
        let mut damaged = rewritten.sidecar.clone();
        damaged[at] ^= 0x40;
        assert!(load(&damaged).is_err(), "byte {at}");
    }
    assert!(matches!(
        invalid(load(&rewritten.sidecar[1..])),
        InvalidLayout::SidecarLength { .. }
    ));
    let mut damaged = rewritten.sidecar.clone();
    damaged[0] ^= 1;
    assert_eq!(invalid(load(&damaged)), InvalidLayout::SidecarHeader);
    let mut damaged = rewritten.sidecar.clone();
    let last = damaged.len() - 12;
    damaged[last] = 200;
    assert_eq!(
        invalid(load(&damaged)),
        InvalidLayout::SlotOutOfRange {
            physical: 200,
            logical: 0
        }
    );
}

#[test]
fn indexes_without_a_graph_aware_layout_need_no_sidecar() {
    let source = fixture(&[&[1], &[0]]);
    let loaded = load_physical_layout(&source, source.len() as u64, &[]).unwrap();
    assert!(loaded.is_none());

    let mut unknown = source.clone();
    write_at(&mut unknown, 8 + 92, &7u32.to_le_bytes());
    let loaded = load_physical_layout(&unknown, source.len() as u64, &[]);
    assert_eq!(
        invalid(loaded),
        InvalidLayout::UnsupportedVersion { major: 1, minor: 7 }
    );

    let mut unmarked = source.clone();
    write_at(&mut unmarked, 8 + 92, &1u32.to_le_bytes());
    let loaded = load_physical_layout(&unmarked, source.len() as u64, &[]);
    assert_eq!(invalid(loaded), InvalidLayout::MissingFingerprint);
}

#[test]
fn digests_are_taken_over_the_documented_bytes() {
    let mapping = [2u32, 0, 1];
    let mut message = Vec::new();
    for slot in mapping {
        message.extend_from_slice(&slot.to_le_bytes());
    }
    let expected: [u8; 32] = Sha256::digest(&message).into();
    assert_eq!(mapping_bytes_digest(&mapping), expected);

    let fields = StructuralFields {
        num_points: 3,
        dims: 2,
        medoid: 1,
        node_len: 32,
        block_size: 256,
        nodes_per_block: 8,
        associated_data_length: 0,
        index_len: 512,
    };
    let mut bound = b"DiskANN graph-aware physical layout binding v1".to_vec();
    bound.extend_from_slice(&[5; 32]);
    for word in [3u64, 2, 1, 32, 256, 8, 0, 512] {
        bound.extend_from_slice(&word.to_le_bytes());
    }
    bound.extend_from_slice(&message);
    let expected: [u8; 32] = Sha256::digest(&bound).into();
    let binding = binding_digest(&[5; 32], &fields, &mapping);
    assert_eq!(binding, expected);
    let prefix = u64::from_le_bytes(expected[..8].try_into().unwrap());
    assert_eq!(digest_fingerprint(&binding).unwrap().get(), prefix);
    assert_eq!(
        invalid(digest_fingerprint(&[0; 32])),
        InvalidLayout::ZeroFingerprint
    );
}

#[test]
fn mappings_are_checked_entry_by_entry() {
    assert!(validate_mapping(&[1, 0, 2], 3).is_ok());
    assert_eq!(
        invalid(validate_mapping(&[1, 0], 3)),
        InvalidLayout::MappingLength {
            actual: 2,
            expected: 3
        }
    );
    assert_eq!(
        invalid(validate_mapping(&[1, 3, 0], 3)),
        InvalidLayout::SlotOutOfRange {
            physical: 3,
            logical: 1
        }
    );
    assert_eq!(
        invalid(validate_mapping(&[1, 1, 0], 3)),
        InvalidLayout::SlotRepeated { physical: 1 }
    );
    assert_eq!(
        invalid(validate_mapping(&[], 1 << 32)),
        InvalidLayout::TooManyPoints
    );
    assert!(make_mapping(&[vec![0, 1], vec![0]], &[0, 1], 2).is_err());
}

#[test]
fn estimates_count_bytes() {
    let source = fixture(&[&[1], &[2], &[0]]);
    let found = estimate_graph_aware_layout(&source[..104], source.len() as u64).unwrap();
    let fields = StructuralFields {
        num_points: 3,
        dims: 2,
        medoid: 0,
        node_len: 32,
        block_size: 256,
        nodes_per_block: 8,
        associated_data_length: 0,
        index_len: 512,
    };
    assert_eq!(found, estimate(&fields).unwrap());
    assert_eq!(expected_index_len(&fields).unwrap(), 512);
    assert_eq!(found.output_bytes, 512);
    assert_eq!(found.mapping_bytes, 12);
    assert_eq!(found.file_passes, 7);
    let (_, rewritten) = rewrite(&source).unwrap();
    assert_eq!(found.sidecar_bytes, rewritten.sidecar.len() as u64);

    let huge = StructuralFields {
        num_points: u64::MAX,
        node_len: 512,
        nodes_per_block: 0,
        ..fields
    };
    assert_eq!(
        invalid(estimate(&huge)),
        InvalidLayout::PhysicalBlockEstimate
    );
}

#[test]
fn geometry_is_checked_for_overflow() {
    let fields = StructuralFields {
        num_points: u64::MAX,
        dims: 2,
        medoid: 0,
        node_len: 300,
        block_size: 256,
        nodes_per_block: 0,
        associated_data_length: 0,
        index_len: 512,
    };
    assert_eq!(
        invalid(expected_index_len(&fields)),
        InvalidLayout::GeometryOverflow
    );
    let fields = StructuralFields {
        num_points: u64::MAX / 2,
        ..fields
    };
    assert_eq!(
        invalid(expected_index_len(&fields)),
        InvalidLayout::IndexLengthOverflow
    );
    let fields = StructuralFields {
        block_size: 0,
        ..fields
    };
    assert_eq!(
        invalid(expected_index_len(&fields)),
        InvalidLayout::ZeroGeometry
    );
}

#[test]
fn images_move_records_and_keep_the_rest() {
    let source = fixture(&[&[1], &[0]]);
    let index = MappedIndex::open(&source).unwrap();
    let output = assemble_output(&index, &[1, 0], LayoutFingerprint::new(9).unwrap());
    assert_eq!(output[..8], source[..8]);
    assert_eq!(output[104..256], source[104..256]);
    assert_eq!(output[256..288], source[288..320]);
    assert_eq!(output[288..320], source[256..288]);
    assert_eq!(output[320..], source[320..]);
    let header = read_index_header(&output, output.len() as u64).unwrap();
    assert_eq!(header.metadata().layout_fingerprint().unwrap().get(), 9);
}

#[test]
fn sidecars_stand_beside_their_index() {
    assert_eq!(default_sidecar_path("dir/a.index"), "dir/a.index.layout");
}

#[test]
fn durations_saturate() {
    assert_eq!(elapsed_ms(17), 17);
    assert_eq!(elapsed_ms(u128::MAX), u64::MAX);
    assert_eq!(PhaseTimings::default().total_ms, 0);
}

#[test]
fn sidecars_are_written_field_by_field() {
    let fields = StructuralFields {
        num_points: 2,
        dims: 2,
        medoid: 1,
        node_len: 32,
        block_size: 256,
        nodes_per_block: 8,
        associated_data_length: 0,
        index_len: 512,
    };
    let sidecar = write_sidecar(&SidecarContents {
        fields: &fields,
        source_digest: &[3; 32],
        binding_digest: &[4; 32],
        fingerprint: LayoutFingerprint::new(11).unwrap(),
        mapping: &[1, 0],
    });
    let mut expected = b"DNLYT001".to_vec();
    expected.extend_from_slice(&1u32.to_le_bytes());
    expected.extend_from_slice(&0u32.to_le_bytes());
    for word in [2u64, 32, 256, 8, 512, 11] {
        expected.extend_from_slice(&word.to_le_bytes());
    }
    expected.extend_from_slice(&[3; 32]);
    expected.extend_from_slice(&[4; 32]);
    expected.extend_from_slice(&mapping_bytes_digest(&[1, 0]));
    expected.extend_from_slice(&[1, 0, 0, 0, 0, 0, 0, 0]);
    assert_eq!(sidecar, expected);
}

#[test]
fn packings_hold_every_node_once() {
    let source = fixture(&[&[3, 1], &[4], &[0], &[1, 4], &[2], &[5]]);
    let index = MappedIndex::open(&source).unwrap();
    for capacity in 1..8 {
        let blocks = pack_nodes(&index, capacity).unwrap();
        let mut nodes: Vec<u32> = blocks.concat();
        nodes.sort_unstable();
        assert_eq!(nodes, [0, 1, 2, 3, 4, 5]);
        assert!(blocks.iter().rev().skip(1).all(|block| block.len() == capacity));
    }
    // Node 0 leads to 1 and 3, of which 1 is the lower; both lead to 4.
    assert_eq!(pack_nodes(&index, 4).unwrap()[0], [0, 1, 3, 4]);
}

#[test]
fn a_rewritten_index_gives_the_source_records_under_logical_ids() {
    let source = fixture_with_geometry(&[&[3], &[4], &[0], &[1], &[2]], 256, 64, 4);
    let (_, rewritten) = rewrite(&source).unwrap();
    let len = rewritten.output.len() as u64;
    let layout = load_physical_layout(&rewritten.output, len, &rewritten.sidecar).unwrap();
    let header = read_index_header(&rewritten.output, len).unwrap();
    let mut graph = DiskSectorGraph::new_with_layout(&header, 5, layout);
    let ids = [4, 0, 3, 1, 2];
    let plan = graph.read_vertices(&ids).unwrap();
    for request in &plan.requests {
        let start = request.offset as usize;
        graph.fill(request, &rewritten.output[start..start + request.buffer_len]);
    }
    graph.complete_read(&plan).unwrap();
    let index = MappedIndex::open(&source).unwrap();
    for (local, &id) in ids.iter().enumerate() {
        let range = index.record_range(id).unwrap();
        assert_eq!(graph.node_disk_buf(local, id).unwrap(), &source[range]);
    }
}

#[test]
fn rewriting_twice_gives_the_same_bytes() {
    let source = fixture(&[&[1, 2], &[2, 3], &[0], &[4], &[5], &[3], &[0]]);
    let (_, first) = rewrite(&source).unwrap();
    let (report, second) = rewrite(&source).unwrap();
    assert_eq!(first.output, second.output);
    assert_eq!(first.sidecar, second.sidecar);
    assert_eq!(report.estimate.output_bytes, second.output.len() as u64);
    assert_eq!(report.estimate.sidecar_bytes, second.sidecar.len() as u64);
    assert_eq!(report.estimate.mapping_bytes, report.mapping_bytes);
}

#[test]
fn a_rewrite_keeps_geometry_and_neighbors() {
    let lists: [&[u32]; 5] = [&[4, 2], &[0, 2], &[1], &[2], &[0]];
    let source = fixture_with_geometry(&lists, 128, 32, 4);
    let (_, rewritten) = rewrite(&source).unwrap();
    let output = &rewritten.output;
    let index = MappedIndex::open(&source).unwrap();
    assert_eq!(rewritten.mapping, [0, 2, 1, 4, 3]);

    let header = read_index_header(output, output.len() as u64).unwrap();
    let fields = StructuralFields::from_header(&header, output.len() as u64);
    assert_eq!(format!("{fields:?}"), format!("{:?}", index.fields));
    for (node, list) in lists.iter().enumerate() {
        let range = index.record_range(rewritten.mapping[node]).unwrap();
        let words: Vec<u32> = output[range]
            .chunks_exact(4)
            .map(|word| u32::from_le_bytes(word.try_into().unwrap()))
            .collect();
        assert_eq!(words[2] as usize, list.len());
        assert_eq!(&words[3..3 + list.len()], *list);
    }
}

#[test]
fn blocks_start_with_the_lowest_node_left() {
    let source = fixture(&[&[5], &[], &[], &[], &[], &[3]]);
    let index = MappedIndex::open(&source).unwrap();
    assert_eq!(
        pack_nodes(&index, 2).unwrap(),
        vec![vec![0, 5], vec![1, 2], vec![3, 4]]
    );
}

#[test]
fn layouts_tell_what_they_hold() {
    let fingerprint = LayoutFingerprint::new(9).unwrap();
    let layout = PhysicalLayout::from_mapping(vec![2, 0, 1], fingerprint);
    let clone = layout.clone();
    for layout in [&layout, &clone] {
        assert_eq!(layout.len(), 3);
        assert!(!layout.is_empty());
        assert_eq!(layout.memory_bytes(), 12);
        assert_eq!(layout.mapping(), &[2, 0, 1]);
        assert_eq!(layout.physical_slot(0), Some(2));
        assert_eq!(layout.physical_slot(3), None);
        assert_eq!(layout.fingerprint(), fingerprint);
    }
    assert!(PhysicalLayout::from_mapping(Vec::new(), fingerprint).is_empty());
}
