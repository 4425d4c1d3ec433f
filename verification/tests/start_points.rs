use diskann_layout::metric::Metric;
use diskann_layout::start_points::{
    nearest_entry_vertices, plan_clusters, routing_metric, BuildError, Clustering, InitOutcome,
    PersistenceError, StartPointTable, StartPointsConfig,
};
use diskann_layout::storage::disk_index_reader::{
    check_entry_vertices, load_start_point_table, start_points_len, start_points_path,
    DiskIndexReader, ReaderError,
};
use std::sync::Arc;

/// Two well-separated 2D clusters: vertices {0,1,2} near the origin, {3,4,5} near (10,10).
const DATA: [f32; 12] = [
    0.0, 0.0, // 0
    0.1, 0.0, // 1
    0.0, 0.1, // 2
    10.0, 10.0, // 3
    10.1, 10.0, // 4
    10.0, 10.1, // 5
];

fn bits(values: &[f32]) -> Vec<u32> {
    values.iter().map(|value| value.to_bits()).collect()
}

fn distance(metric: Metric, a: &[f32], b: &[f32]) -> f32 {
    let dot: f32 = a.iter().zip(b).map(|(x, y)| x * y).sum();
    let norm = |v: &[f32]| v.iter().map(|x| x * x).sum::<f32>().sqrt();
    match metric {
        Metric::L2 => a.iter().zip(b).map(|(x, y)| (x - y) * (x - y)).sum(),
        Metric::InnerProduct => -dot,
        Metric::Cosine => 1.0 - dot / (norm(a) * norm(b)),
        Metric::CosineNormalized => 1.0 - dot,
    }
}

/// The distances of all points to all centroids, row by row.
fn distances(metric: Metric, data: &[f32], centroids: &[f32], dim: usize) -> Vec<f32> {
    data.chunks_exact(dim)
        .flat_map(|point| {
            centroids
                .chunks_exact(dim)
                .map(move |centroid| distance(metric, point, centroid))
        })
        .collect()
}

/// Lloyd's iterations from evenly spaced rows.
fn cluster(data: &[f32], dim: usize, clusters: usize, rounds: usize) -> (Vec<f32>, Vec<u32>) {
    let points = data.len() / dim;
    let mut centroids: Vec<f32> = (0..clusters)
        .flat_map(|c| {
            let row = c * points / clusters;
            data[row * dim..(row + 1) * dim].to_vec()
        })
        .collect();
    let mut assignments = vec![0u32; points];
    for _ in 0..rounds {
        let all = distances(Metric::L2, data, &centroids, dim);
        for (point, row) in all.chunks_exact(clusters).enumerate() {
            let best = (0..clusters)
                .min_by(|&x, &y| row[x].total_cmp(&row[y]))
                .unwrap();
            assignments[point] = best as u32;
        }
        for c in 0..clusters {
            let members: Vec<usize> = (0..points).filter(|&p| assignments[p] == c as u32).collect();
            for axis in 0..dim {
                if !members.is_empty() {
                    centroids[c * dim + axis] = members
                        .iter()
                        .map(|&p| data[p * dim + axis])
                        .sum::<f32>()
                        / members.len() as f32;
                }
            }
        }
    }
    (centroids, assignments)
}

fn build(
    config: &StartPointsConfig,
    data: &[f32],
    dim: usize,
) -> Result<Option<StartPointTable>, BuildError> {
    let points = data.len() / dim;
    let clusters = match plan_clusters(config, points, dim)? {
        Some(clusters) => clusters,
        None => return Ok(None),
    };
    let (centroids, assignments) = cluster(data, dim, clusters, config.max_iters);
    let all = distances(routing_metric(config.metric), data, &centroids, dim);
    StartPointTable::build(
        config,
        points,
        dim,
        Clustering {
            init: InitOutcome::Usable,
            centroids: &bits(&centroids),
            assignments: &assignments,
            distances: &bits(&all),
        },
    )
}

fn route(table: &StartPointTable, query: &[f32]) -> Vec<u32> {
    let centroids: Vec<f32> = table.centroids.iter().map(|&b| f32::from_bits(b)).collect();
    let scores: Vec<u32> = centroids
        .chunks_exact(table.dim())
        .map(|centroid| distance(table.metric(), query, centroid).to_bits())
        .collect();
    table.entry_points(query.len(), &scores)
}

#[test]
fn disabled_config_returns_none() {
    let config = StartPointsConfig::disabled(Metric::L2);
    let table = build(&config, &DATA, 2).expect("build");
    assert!(table.is_none());
}

#[test]
fn routes_query_to_nearest_cluster() {
    let config = StartPointsConfig::new(2, 1, 32, 42, Metric::L2);
    let table = build(&config, &DATA, 2).expect("build").expect("enabled");

    assert_eq!(table.num_centroids(), 2);

    // Near the origin cluster -> a vertex in {0,1,2}.
    let near = route(&table, &[0.05, 0.05]);
    assert_eq!(near.len(), 1);
    assert!(
        near[0] < 3,
        "expected an origin-cluster vertex, got {}",
        near[0]
    );

    // Near the far cluster -> a vertex in {3,4,5}.
    let far = route(&table, &[9.9, 9.9]);
    assert_eq!(far.len(), 1);
    assert!(far[0] >= 3, "expected a far-cluster vertex, got {}", far[0]);
}

#[test]
fn num_clusters_is_clamped_to_point_count() {
    // Ask for more clusters than there are points.
    let config = StartPointsConfig::new(100, 4, 16, 7, Metric::L2);
    assert_eq!(plan_clusters(&config, 6, 2).expect("plan"), Some(6));
    let table = build(&config, &DATA, 2).expect("build").expect("enabled");
    assert!(table.num_centroids() <= 6);
}

#[test]
fn probes_are_clamped_to_centroid_count() {
    // m larger than the number of centroids: return one seed per centroid.
    let config = StartPointsConfig::new(2, 8, 16, 1, Metric::L2);
    let table = build(&config, &DATA, 2).expect("build").expect("enabled");
    let seeds = route(&table, &[5.0, 5.0]);
    assert_eq!(seeds.len(), table.num_centroids());
    assert_eq!(table.num_probes(), 8);
}

#[test]
fn entry_vertices_are_nearest_to_final_centroids() {
    let data = [0.0, 0.0, 10.0, 0.0];
    let centroids = [9.0, 0.0, 10.0, 0.0];

    // Point 1 was assigned to cluster 1 before the final update, but is now also the
    // closest point to cluster 0's final centroid.
    let all = bits(&distances(Metric::L2, &data, &centroids, 2));
    let entries = nearest_entry_vertices(&all, 2, 2, &[0, 1]);
    assert_eq!(entries, vec![Some(1), Some(1)]);
}

#[test]
fn normalized_cosine_uses_scale_independent_centroid_routing() {
    let table = StartPointTable {
        dim: 2,
        centroids: bits(&[10.0, 10.0, 1.0, 0.0]),
        entry_vertices: vec![0, 1],
        metric: routing_metric(Metric::CosineNormalized),
        num_probes: 1,
    };

    assert_eq!(route(&table, &[1.0, 0.0]), vec![1]);
    assert_eq!(table.metric(), Metric::Cosine);
    assert_eq!(routing_metric(Metric::InnerProduct), Metric::InnerProduct);
}

#[test]
fn persistence_round_trip() {
    let table = StartPointTable {
        dim: 2,
        centroids: bits(&[1.0, 2.0, 3.0, 4.0]),
        entry_vertices: vec![7, 11],
        metric: Metric::L2,
        num_probes: 2,
    };

    let encoded = table.to_bytes().expect("encode");
    assert_eq!(
        StartPointTable::from_bytes(&encoded).expect("decode"),
        table
    );
}

#[test]
fn persistence_rejects_truncated_payload() {
    let table = StartPointTable {
        dim: 2,
        centroids: bits(&[1.0, 2.0]),
        entry_vertices: vec![7],
        metric: Metric::L2,
        num_probes: 1,
    };
    let mut encoded = table.to_bytes().expect("encode");
    encoded.pop();

    assert!(matches!(
        StartPointTable::from_bytes(&encoded),
        Err(PersistenceError::InvalidLength { .. })
    ));
}

fn small_table() -> StartPointTable {
    StartPointTable {
        dim: 1,
        centroids: bits(&[1.0]),
        entry_vertices: vec![7],
        metric: Metric::L2,
        num_probes: 3,
    }
}

#[test]
fn encoded_tables_have_the_documented_layout() {
    let encoded = small_table().to_bytes().unwrap();
    assert_eq!(encoded.len(), 48);
    assert_eq!(&encoded[..8], b"DANNSTPT");
    assert_eq!(encoded[8..12], 1u32.to_le_bytes());
    assert_eq!(encoded[12..16], 2i32.to_le_bytes());
    assert_eq!(encoded[16..24], 1u64.to_le_bytes());
    assert_eq!(encoded[24..32], 1u64.to_le_bytes());
    assert_eq!(encoded[32..40], 3u64.to_le_bytes());
    assert_eq!(encoded[40..44], 1.0f32.to_le_bytes());
    assert_eq!(encoded[44..48], 7u32.to_le_bytes());
}

#[test]
fn decoding_reports_every_fault() {
    let encoded = small_table().to_bytes().unwrap();
    let decode = |at: usize, bytes: &[u8]| {
        let mut changed = encoded.clone();
        changed[at..at + bytes.len()].copy_from_slice(bytes);
        StartPointTable::from_bytes(&changed).unwrap_err()
    };
    assert_eq!(decode(0, b"X"), PersistenceError::InvalidMagic);
    assert_eq!(decode(8, &[2]), PersistenceError::UnsupportedVersion(2));
    assert_eq!(decode(12, &[0xff; 4]), PersistenceError::InvalidMetric(-1));
    assert_eq!(decode(16, &[0]), PersistenceError::ZeroDimension);
    assert_eq!(decode(24, &[0]), PersistenceError::NoCentroids);
    assert_eq!(decode(32, &[0]), PersistenceError::ZeroProbes);
    assert_eq!(decode(16, &[0xff; 8]), PersistenceError::SizeOverflow);
    assert_eq!(
        decode(24, &[2]),
        PersistenceError::InvalidLength {
            expected: 56,
            actual: 48
        }
    );
    assert_eq!(
        decode(40, &f32::NAN.to_le_bytes()),
        PersistenceError::NonFiniteCentroid
    );
    assert_eq!(
        StartPointTable::from_bytes(&[0; 39]).unwrap_err(),
        PersistenceError::InvalidLength {
            expected: 40,
            actual: 39
        }
    );
}

#[test]
fn encoding_reports_inconsistent_tables() {
    let mut table = small_table();
    table.centroids.push(0);
    assert_eq!(
        table.to_bytes(),
        Err(PersistenceError::InvalidCentroidLayout {
            expected: 1,
            actual: 2
        })
    );
    table.entry_vertices.push(8);
    table.dim = usize::MAX;
    assert_eq!(table.to_bytes(), Err(PersistenceError::SizeOverflow));
}

#[test]
fn building_reports_every_failure() {
    let config = StartPointsConfig::new(2, 1, 4, 0, Metric::L2);
    let empty = plan_clusters(&config, 0, 2);
    assert!(matches!(empty, Err(BuildError::EmptyData)));
    let flat = plan_clusters(&config, 2, 0);
    assert!(matches!(flat, Err(BuildError::EmptyData)));

    let failed = StartPointTable::build(
        &config,
        2,
        1,
        Clustering {
            init: InitOutcome::Failed("no centers".to_string()),
            centroids: &[],
            assignments: &[],
            distances: &[],
        },
    );
    assert!(matches!(failed, Err(BuildError::Init(reason)) if reason == "no centers"));

    let unassigned = StartPointTable::build(
        &config,
        2,
        1,
        Clustering {
            init: InitOutcome::Usable,
            centroids: &bits(&[0.0, 1.0]),
            assignments: &[],
            distances: &bits(&[0.0, 1.0, 1.0, 0.0]),
        },
    );
    assert!(matches!(unassigned, Err(BuildError::NoEntryVertices)));
}

#[test]
fn empty_clusters_are_dropped_with_their_centroids() {
    let config = StartPointsConfig::new(3, 2, 4, 0, Metric::CosineNormalized);
    let table = StartPointTable::build(
        &config,
        3,
        1,
        Clustering {
            init: InitOutcome::Usable,
            centroids: &[10, 20, 30],
            assignments: &[2, 0, 2],
            distances: &bits(&[5.0, 0.0, 1.0, 2.0, 0.0, 1.0, 2.0, 0.0, f32::NAN]),
        },
    )
    .unwrap()
    .unwrap();
    assert_eq!(table.centroids, [10, 30]);
    assert_eq!(table.entry_vertices(), [1, 0]);
    assert_eq!(table.metric(), Metric::Cosine);
    assert_eq!(table.clone(), table);
}

#[test]
fn loads_optional_start_point_table() {
    let config = StartPointsConfig::new(2, 1, 4, 0, Metric::L2);
    let table = build(&config, &[0.0, 0.0, 10.0, 10.0], 2)
        .unwrap()
        .unwrap();
    let file = table.to_bytes().unwrap();

    assert_eq!(
        load_start_point_table(Some(&file)).unwrap().as_ref(),
        Some(&table)
    );
    assert!(load_start_point_table(None).unwrap().is_none());
}

#[test]
fn readers_hold_what_was_loaded() {
    let reader = DiskIndexReader::new(Arc::new("pq"), 25000, Some(small_table())).unwrap();
    assert_eq!(reader.get_num_points(), 25000);
    assert_eq!(*reader.get_pq_data(), "pq");
    assert_eq!(reader.get_start_point_table(), Some(&small_table()));
    let reader = DiskIndexReader::new(Arc::new(()), 1, None).unwrap();
    assert!(reader.get_start_point_table().is_none());
}

#[test]
fn readers_reject_bad_start_points() {
    assert_eq!(check_entry_vertices(&small_table(), 8), Ok(()));
    assert_eq!(
        check_entry_vertices(&small_table(), 7),
        Err(ReaderError::EntryVertexOutOfRange)
    );
    let reader = DiskIndexReader::new(Arc::new(()), 7, Some(small_table()));
    assert_eq!(reader.err(), Some(ReaderError::EntryVertexOutOfRange));
    assert_eq!(
        load_start_point_table(Some(&[0; 48])),
        Err(ReaderError::StartPoints(PersistenceError::InvalidMagic))
    );
}

#[test]
fn start_point_files_stand_beside_the_pivots() {
    assert_eq!(
        start_points_path("/index_pq_pivots.bin").as_deref(),
        Some("/index_start_points.bin")
    );
    assert_eq!(
        start_points_path("_pq_pivots.bin").as_deref(),
        Some("_start_points.bin")
    );
    assert_eq!(start_points_path("/index_pivots.bin"), None);
    assert_eq!(start_points_path(".bin"), None);
    assert_eq!(start_points_len(12), Ok(12));
}

#[test]
fn tables_are_compared_as_numbers() {
    let with = |centroid: f32| StartPointTable {
        centroids: bits(&[centroid]),
        ..small_table()
    };
    assert!(with(1.0) == small_table());
    assert!(with(2.0) != small_table());
    assert!(with(0.0) == with(-0.0));
    assert!(with(f32::NAN) != with(f32::NAN));
    assert!(
        small_table()
            != StartPointTable {
                entry_vertices: vec![8],
                ..small_table()
            }
    );
    let clone = small_table().clone();
    assert!(clone == small_table());
}
