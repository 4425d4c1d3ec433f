use diskann_layout::data_model::{
    GraphHeader, GraphLayoutVersion, GraphMetadata, LayoutFingerprint,
};

fn sample() -> GraphMetadata {
    let num_pts = 1000;
    let dims = 32;
    let medoid = 500;
    let node_len = 64;
    let num_nodes_per_sector = 4;
    let vamana_frozen_num = 20;
    let vamana_frozen_loc = 50;
    let disk_index_file_size = 1024;
    let data_size = 256;

    GraphMetadata::new(
        num_pts,
        dims,
        medoid,
        node_len,
        num_nodes_per_sector,
        vamana_frozen_num,
        vamana_frozen_loc,
        disk_index_file_size,
        data_size,
    )
}

#[test]
fn test_graph_metadata_serialized_size() {
    let bytes = sample().to_bytes().unwrap();
    assert_eq!(bytes.len(), GraphMetadata::get_size());
}

#[test]
fn test_graph_metadata_to_bytes_and_try_from() {
    let metadata = sample();
    let bytes = metadata.to_bytes().unwrap();
    let deserialized_metadata = GraphMetadata::try_from(bytes.as_slice()).unwrap();
    assert_eq!(metadata.num_pts, deserialized_metadata.num_pts);
    assert_eq!(metadata.dims, deserialized_metadata.dims);
    assert_eq!(metadata.medoid, deserialized_metadata.medoid);
    assert_eq!(metadata.node_len, deserialized_metadata.node_len);
    assert_eq!(
        metadata.num_nodes_per_block,
        deserialized_metadata.num_nodes_per_block
    );
    assert_eq!(
        metadata.vamana_frozen_num,
        deserialized_metadata.vamana_frozen_num
    );
    assert_eq!(
        metadata.vamana_frozen_loc,
        deserialized_metadata.vamana_frozen_loc
    );
    assert_eq!(
        metadata.disk_index_file_size,
        deserialized_metadata.disk_index_file_size
    );
    assert_eq!(
        metadata.associated_data_length,
        deserialized_metadata.associated_data_length
    );
    assert_eq!(
        metadata.layout_fingerprint(),
        deserialized_metadata.layout_fingerprint()
    );
}

#[test]
fn graph_metadata_round_trips_layout_fingerprint() {
    let mut metadata = GraphMetadata::new(1, 1, 0, 16, 1, 0, 0, 32, 0);
    metadata.set_layout_fingerprint(LayoutFingerprint::new(42).unwrap());

    let bytes = metadata.to_bytes().unwrap();
    assert_eq!(
        GraphMetadata::try_from(bytes.as_slice())
            .unwrap()
            .layout_fingerprint()
            .unwrap()
            .get(),
        42
    );
}

#[test]
fn test_graph_metadata_try_from_error() {
    let bytes = vec![2; GraphMetadata::get_size() - 1];
    let result = GraphMetadata::try_from(&bytes[..]);
    assert!(result.is_err());
}

#[test]
fn metadata_words_follow_each_other() {
    let mut metadata = sample();
    metadata.set_layout_fingerprint(LayoutFingerprint::new(0x0102_0304_0506_0708).unwrap());
    let bytes = metadata.to_bytes().unwrap();
    let words: Vec<u64> = bytes
        .chunks_exact(8)
        .map(|word| u64::from_le_bytes(word.try_into().unwrap()))
        .collect();
    assert_eq!(
        words,
        [
            1000,
            32,
            500,
            64,
            4,
            20,
            50,
            0x0102_0304_0506_0708,
            1024,
            256
        ]
    );
}

#[test]
fn zero_is_no_fingerprint() {
    assert!(LayoutFingerprint::new(0).is_none());
    assert!(sample().layout_fingerprint().is_none());
}

#[test]
fn headers_round_trip() {
    let header = GraphHeader::new(sample(), 4096, GraphHeader::graph_aware_layout_version());
    let bytes = header.to_bytes().unwrap();
    assert_eq!(bytes.len(), GraphHeader::get_size());
    assert_eq!(bytes[..80], sample().to_bytes().unwrap()[..]);
    assert_eq!(bytes[80..88], 4096u64.to_le_bytes());
    let read = GraphHeader::try_from(&bytes).unwrap();
    assert_eq!(read.block_size(), 4096);
    assert_eq!(*read.layout_version(), GraphLayoutVersion::new(1, 1));
    assert_eq!(read.metadata().num_pts, 1000);

    let error = GraphHeader::try_from(&bytes[..95]).unwrap_err();
    assert_eq!((error.actual, error.required), (95, 96));
}
