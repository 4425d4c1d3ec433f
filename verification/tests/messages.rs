//! The texts of errors.
use diskann_layout::layout::{InvalidLayout, LayoutError};
use diskann_layout::metric::Metric;
use diskann_layout::routing::table::RoutingError;
use diskann_layout::search::disk_sector_graph::SectorGraphError;
use diskann_layout::start_points::{BuildError, PersistenceError};
use diskann_layout::storage::disk_index_reader::ReaderError;

#[test]
fn layout_errors_name_what_is_wrong() {
    let invalid = |fault| LayoutError::Invalid(fault).message("a.index");
    assert_eq!(
        invalid(InvalidLayout::HeaderTruncated),
        "invalid graph-aware layout: index a.index is shorter than its 104-byte header"
    );
    assert_eq!(
        invalid(InvalidLayout::UnsupportedSourceVersion { major: 2, minor: 13 }),
        "invalid graph-aware layout: unsupported source graph layout version 2.13"
    );
    assert_eq!(
        invalid(InvalidLayout::SlotOutOfRange {
            physical: 70,
            logical: 3
        }),
        "invalid graph-aware layout: physical slot 70 for logical node 3 is out of range"
    );
    assert_eq!(
        invalid(InvalidLayout::SidecarLength {
            actual: 0,
            expected: u64::MAX
        }),
        "invalid graph-aware layout: sidecar length is 0, expected 18446744073709551615"
    );
    assert_eq!(
        LayoutError::AlreadyExists("b".to_string()).message("a.index"),
        "refusing to overwrite existing path b"
    );
    assert_eq!(
        LayoutError::Io {
            path: "b".to_string(),
            reason: "gone".to_string()
        }
        .message("a.index"),
        "I/O error for b: gone"
    );
}

#[test]
fn routing_errors_name_what_is_wrong() {
    let text = |error: RoutingError| error.message("t.bin");
    assert_eq!(
        text(RoutingError::Dimension {
            elements: 5,
            entries: 2,
            dimension: 3
        }),
        "routing vectors contain 5 elements for 2 entries with dimension 3"
    );
    assert_eq!(
        text(RoutingError::NotRoutingTable),
        "'t.bin' is not a supported routing table"
    );
    assert_eq!(
        text(RoutingError::InvalidLength),
        "routing table 't.bin' has an invalid length"
    );
    assert_eq!(
        text(RoutingError::ElementSize { found: 8 }),
        "routing table element size 8 does not match requested type size 4"
    );
    assert_eq!(
        text(RoutingError::TooFewTrainingPoints {
            points: 1,
            centers: 20
        }),
        "1 sampled training points are insufficient for 20 centers"
    );
    assert_eq!(
        text(RoutingError::TooFewPoints {
            points: 1,
            centers: 20
        }),
        "1 points are insufficient for 20 centers"
    );
    assert_eq!(
        text(RoutingError::UnsupportedMetric {
            metric: Metric::Cosine
        }),
        "PQ-space routing supports only l2 and innerproduct, got cosine"
    );
}

#[test]
fn sector_errors_name_what_is_wrong() {
    assert_eq!(
        SectorGraphError::TooManyVertices {
            requested: 9,
            max: 8
        }
        .message(),
        "Trying to read too many vertices. number of vertices to read: 9, max: 8"
    );
    assert_eq!(
        SectorGraphError::ZeroLength {
            num_sectors_per_node: 1,
            block_size: 0
        }
        .message(),
        "len_per_node is 0 (num_sectors_per_node=1, block_size=0)"
    );
    assert_eq!(
        SectorGraphError::VertexOutsideLayout { vertex_id: 12 }.message(),
        "Logical vertex ID 12 is outside physical layout"
    );
}

#[test]
fn start_point_errors_name_what_is_wrong() {
    assert_eq!(
        PersistenceError::InvalidMetric(i32::MIN).message(),
        "invalid start-point table metric -2147483648"
    );
    assert_eq!(
        PersistenceError::InvalidMetric(7).message(),
        "invalid start-point table metric 7"
    );
    assert_eq!(
        PersistenceError::InvalidLength {
            expected: 100,
            actual: 99
        }
        .message(),
        "invalid start-point table length: expected 100 bytes, got 99"
    );
    assert_eq!(
        BuildError::Init("no rows".to_string()).message(),
        "k-means initialization failed: no rows"
    );
    assert_eq!(
        ReaderError::StartPoints(PersistenceError::InvalidMagic).message("s.bin"),
        "failed to load start-point file s.bin: invalid start-point table magic"
    );
    assert_eq!(
        ReaderError::StartPointsTooLarge.message("s.bin"),
        "start-point file s.bin is too large"
    );
}
