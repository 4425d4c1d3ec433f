use diskann_layout::metric::Metric;
use diskann_layout::ranking::rank_positions;
use diskann_layout::routing::generate::{
    generate_routing_table, generate_routing_table_pq, sample_training_points, AssessedPoint,
};
use diskann_layout::routing::nearest::{is_nearer, NearestRows};
use diskann_layout::routing::representatives::{
    check_point_count, draw_points, nearest_center, routing_preference, sample_points,
    training_size, Preference, RepresentativeTracker,
};
use diskann_layout::routing::table::{RoutingError, RoutingTable};

use rand::{rngs::StdRng, SeedableRng};

fn bits(values: &[f32]) -> Vec<u32> {
    values.iter().map(|value| value.to_bits()).collect()
}

fn table(ids: Vec<u32>, vectors: &[f32], dimension: usize) -> RoutingTable {
    RoutingTable::new(ids, bits(vectors), dimension).unwrap()
}

/// The distances of a query to the vectors of a table: less is nearer.
fn scores(table: &RoutingTable, query: &[f32], metric: Metric) -> Vec<u32> {
    table
        .vectors
        .chunks_exact(table.dimension())
        .map(|vector| {
            let pairs = query.iter().zip(vector.iter().map(|&b| f32::from_bits(b)));
            let distance: f32 = match metric {
                Metric::L2 => pairs.map(|(x, y)| (x - y) * (x - y)).sum(),
                _ => -pairs.map(|(x, y)| x * y).sum::<f32>(),
            };
            distance.to_bits()
        })
        .collect()
}

fn select(
    table: &RoutingTable,
    query: &[f32],
    metric: Metric,
    count: usize,
) -> Result<Vec<u32>, RoutingError> {
    table.select(query.len(), &scores(table, query, metric), count)
}

#[test]
fn routing_table_round_trip_and_selection() {
    let table = table(vec![10, 20, 30], &[0.0f32, 0.0, 5.0, 5.0, 9.0, 9.0], 2);
    let saved = table.save().unwrap();

    let loaded = RoutingTable::load(&saved).unwrap();
    assert_eq!(loaded.len(), 3);
    assert_eq!(loaded.dimension(), 2);
    assert_eq!(
        select(&loaded, &[4.0, 4.0], Metric::L2, 2).unwrap(),
        vec![20, 10]
    );
    assert_eq!(loaded.ids(), [10, 20, 30]);
    assert_eq!(loaded.vectors, table.vectors);
    assert!(!loaded.is_empty());
}

#[test]
fn selection_deduplicates_node_ids() {
    let table = table(vec![10, 10, 20], &[0.0f32, 0.1, 1.0], 1);
    assert_eq!(
        select(&table, &[0.0], Metric::L2, 2).unwrap(),
        vec![10, 20]
    );
}

#[test]
fn selection_prefers_largest_inner_product() {
    let table = table(vec![10, 20, 30], &[1.0f32, 0.0, 0.0, 1.0, 2.0, 2.0], 2);
    assert_eq!(
        select(&table, &[1.0, 1.0], Metric::InnerProduct, 1).unwrap(),
        vec![30]
    );
}

#[test]
fn tables_are_checked_when_made_and_used() {
    assert_eq!(
        RoutingTable::new(vec![], vec![], 1).unwrap_err(),
        RoutingError::Empty
    );
    assert_eq!(
        RoutingTable::new(vec![1], vec![0, 0], 1).unwrap_err(),
        RoutingError::Dimension {
            elements: 2,
            entries: 1,
            dimension: 1
        }
    );
    let table = table(vec![1], &[0.0], 1);
    assert_eq!(
        table.select(2, &[0], 1).unwrap_err(),
        RoutingError::QueryDimension {
            query: 2,
            routing: 1
        }
    );
}

#[test]
fn saved_tables_have_the_documented_layout() {
    let saved = table(vec![7], &[1.5, -2.0], 2).save().unwrap();
    let mut expected = b"DANNRTE1".to_vec();
    for word in [1u32, 2, 4, 7] {
        expected.extend_from_slice(&word.to_le_bytes());
    }
    expected.extend_from_slice(&1.5f32.to_le_bytes());
    expected.extend_from_slice(&(-2.0f32).to_le_bytes());
    assert_eq!(saved, expected);
}

#[test]
fn loading_reports_every_fault() {
    let saved = table(vec![7], &[1.5, -2.0], 2).save().unwrap();
    let load = |at: usize, word: u32| {
        let mut changed = saved.clone();
        changed[at..at + 4].copy_from_slice(&word.to_le_bytes());
        RoutingTable::load(&changed).unwrap_err()
    };
    assert_eq!(RoutingTable::load(&saved[..7]).unwrap_err(), RoutingError::Truncated);
    assert_eq!(RoutingTable::load(&saved[..19]).unwrap_err(), RoutingError::Truncated);
    assert_eq!(load(0, 0), RoutingError::NotRoutingTable);
    assert_eq!(load(16, 2), RoutingError::ElementSize { found: 2 });
    assert_eq!(load(8, 2), RoutingError::InvalidLength);
    let mut empty = saved[..20].to_vec();
    empty[8] = 0;
    assert_eq!(RoutingTable::load(&empty).unwrap_err(), RoutingError::Empty);
}

#[test]
fn positions_are_ranked_by_total_order() {
    let scores = bits(&[1.0, -0.0, f32::NAN, 0.0, f32::NEG_INFINITY, 1.0]);
    assert_eq!(rank_positions(&scores), [4, 1, 3, 0, 5, 2]);
}

#[test]
fn metrics_decide_what_is_better() {
    assert_eq!(routing_preference(Metric::L2), Ok(Preference::Smallest));
    assert_eq!(
        routing_preference(Metric::InnerProduct),
        Ok(Preference::Largest)
    );
    assert_eq!(
        routing_preference(Metric::Cosine),
        Err(RoutingError::UnsupportedMetric {
            metric: Metric::Cosine
        })
    );
    let values = bits(&[3.0, 1.0, f32::NAN, 5.0, 1.0]);
    assert_eq!(nearest_center(&values, Preference::Smallest).0, 1);
    assert_eq!(nearest_center(&values, Preference::Largest).0, 3);
    assert_eq!(
        nearest_center(&bits(&[f32::NAN]), Preference::Smallest),
        (0, f32::INFINITY.to_bits())
    );
}

#[test]
fn samples_are_bounded_and_distinct() {
    assert_eq!(check_point_count(4, 4), Ok(()));
    assert_eq!(
        check_point_count(3, 4),
        Err(RoutingError::TooFewPoints {
            points: 3,
            centers: 4
        })
    );
    assert_eq!(training_size(10, 4, 100), 10);
    assert_eq!(training_size(1, 4, 100), 4);
    assert_eq!(training_size(200, 4, 100), 100);

    // Exchanges 0 with 3, then 1 with 3, then 2 with itself.
    assert_eq!(sample_points(5, &[3, 3, 2]), [3, 0, 2]);
}

fn assessed(values: &[f32], vector: &[f32]) -> AssessedPoint {
    AssessedPoint {
        values: bits(values),
        vector: bits(vector),
    }
}

#[test]
fn the_nearest_row_represents_each_center() {
    let mut rows = NearestRows::new(3, 1);
    rows.offer_batch(&[
        assessed(&[4.0, 1.0, 9.0], &[10.0]),
        assessed(&[0.5, 2.0, 8.0], &[11.0]),
        assessed(&[7.0, 0.5, 8.0], &[12.0]),
    ])
    .unwrap();
    // As near to the first center as the second row is.
    rows.offer(&assessed(&[0.5, 6.0, 9.0], &[13.0])).unwrap();
    assert_eq!(rows.len(), 4);
    let table = rows.finish().unwrap();
    // No row is closest to the third center, and yet the second is the nearest to it.
    assert_eq!(table.ids(), [1, 2, 1]);
    assert_eq!(table.vectors, bits(&[11.0, 12.0, 11.0]));
}

#[test]
fn what_is_no_number_is_farthest_away() {
    let nan = f32::NAN.to_bits();
    let far = f32::INFINITY.to_bits();
    assert!(is_nearer(far, nan));
    assert!(!is_nearer(nan, far));
    assert!(!is_nearer(nan, nan));
    assert!(is_nearer(0, far));
    assert!(!is_nearer(0, (-0.0f32).to_bits()));

    let mut rows = NearestRows::new(2, 1);
    for values in [[f32::NAN, f32::INFINITY], [5.0, f32::NAN]] {
        rows.offer(&assessed(&values, &[values[0]])).unwrap();
    }
    assert_eq!(rows.finish().unwrap().ids(), [1, 0]);
}

#[test]
fn the_best_point_represents_its_center() {
    let mut tracker = RepresentativeTracker::new(3, 1, Preference::Smallest);
    let values = [
        [4.0, 1.0, 9.0], // point 0 is nearest to center 1
        [0.5, 2.0, 9.0], // point 1 to center 0
        [7.0, 0.5, 9.0], // point 2 to center 1, and nearer
        [0.5, 6.0, 9.0], // point 3 to center 0, as near as point 1
    ];
    for (point, values) in values.iter().enumerate() {
        tracker
            .assign_point(point, &bits(values), &bits(&[10.0 + point as f32]))
            .unwrap();
    }
    let table = tracker.finish_populated().unwrap();
    // No point is assigned to center 2.
    assert_eq!(table.ids(), [1, 2]);
    assert_eq!(table.vectors, bits(&[11.0, 12.0]));
}

#[test]
fn centers_without_a_finite_score_are_dropped() {
    let mut tracker = RepresentativeTracker::new(2, 2, Preference::Largest);
    tracker
        .offer(1, 2.0f32.to_bits(), 5, &bits(&[1.0, 2.0]))
        .unwrap();
    tracker
        .offer(0, f32::INFINITY.to_bits(), 6, &bits(&[3.0, 4.0]))
        .unwrap();
    tracker
        .assign_point(9, &bits(&[-1.0, 3.0]), &bits(&[5.0, 6.0]))
        .unwrap();
    let table = tracker.finish_populated().unwrap();
    // The score of center 0 is not finite.
    assert_eq!(table.ids(), [9]);
    assert_eq!(table.vectors, bits(&[5.0, 6.0]));

    let tracker = RepresentativeTracker::new(2, 1, Preference::Largest);
    assert_eq!(tracker.finish_populated().unwrap_err(), RoutingError::Empty);
}

#[test]
fn points_beyond_a_u32_are_refused() {
    let mut tracker = RepresentativeTracker::new(1, 1, Preference::Smallest);
    let offered = tracker.offer(0, 1.0f32.to_bits(), 1 << 32, &[0]);
    assert_eq!(offered, Err(RoutingError::TooManyPoints));
}

#[test]
fn metric_codes_round_trip() {
    for metric in [
        Metric::Cosine,
        Metric::InnerProduct,
        Metric::L2,
        Metric::CosineNormalized,
    ] {
        assert_eq!(Metric::from_code(metric.code()), Some(metric));
    }
    assert_eq!(Metric::from_code(4), None);
}

#[test]
fn random_samples_are_distinct_points() {
    let mut rng = StdRng::seed_from_u64(42);
    let mut sampled = draw_points(&mut rng, 1000, 1000);
    let in_order: Vec<usize> = (0..1000).collect();
    assert_ne!(sampled, in_order);
    sampled.sort_unstable();
    assert_eq!(sampled, in_order);

    let few = draw_points(&mut rng, 1000, 10);
    assert_eq!(few.len(), 10);
    assert!(few.iter().any(|&point| point >= 10));
    assert!(draw_points(&mut rng, 5, 0).is_empty());
}

/// A batch of one-dimensional points with their squared distances to the centers.
fn batch_of(points: &[f32], centers: &[f32]) -> Vec<AssessedPoint> {
    points
        .iter()
        .map(|point| {
            let distances: Vec<f32> = centers.iter().map(|c| (point - c).powi(2)).collect();
            assessed(&distances, &[*point])
        })
        .collect()
}

#[test]
fn tables_are_generated_from_batches() {
    let points = [0.5, 9.0, 0.25, 10.5, -0.25];
    let given: Vec<&[f32]> = points.chunks(2).collect();
    let batch = |index: usize| batch_of(given[index], &[0.0, 10.0]);
    let (table, bytes) = generate_routing_table(5, 2, 1, 5, given.len(), batch).unwrap();
    // Points 2 and 4 are equally near to the first center.
    assert_eq!(table.ids(), [2, 3]);
    assert_eq!(table.vectors, bits(&[0.25, 10.5]));
    assert_eq!(RoutingTable::load(&bytes).unwrap().ids(), table.ids());

    assert_eq!(
        generate_routing_table(1, 2, 1, 5, given.len(), batch).unwrap_err(),
        RoutingError::TooFewTrainingPoints {
            points: 1,
            centers: 2
        }
    );
    assert_eq!(
        generate_routing_table(5, 2, 1, 6, given.len(), batch).unwrap_err(),
        RoutingError::Incomplete {
            read: 5,
            expected: 6
        }
    );
    let nothing = |_: usize| Vec::new();
    assert_eq!(
        generate_routing_table(2, 2, 1, 0, 1, nothing).unwrap_err(),
        RoutingError::Empty
    );
    let flat = |_: usize| vec![assessed(&[1.0, 2.0], &[])];
    assert_eq!(
        generate_routing_table(2, 2, 0, 1, 1, flat).unwrap_err(),
        RoutingError::Dimension {
            elements: 0,
            entries: 2,
            dimension: 0
        }
    );
}

#[test]
fn every_center_is_mapped_to_a_real_row() {
    // Both rows are closest to the first center.
    let batch = |_: usize| batch_of(&[5.0, 5.0], &[5.0, 50.0]);
    let (table, _) = generate_routing_table(2, 2, 1, 2, 1, batch).unwrap();
    assert_eq!(table.ids(), [0, 0]);
    assert_eq!(table.vectors, bits(&[5.0, 5.0]));

    // All rows are closest to the first center, the last one is nearest to the second.
    let batch = |index: usize| batch_of(&[[1.0], [2.0], [3.0]][index], &[2.0, 50.0]);
    let (table, _) = generate_routing_table(3, 2, 1, 3, 3, batch).unwrap();
    assert_eq!(table.ids(), [1, 2]);
    assert_eq!(table.vectors, bits(&[2.0, 3.0]));
}

#[test]
fn tables_are_generated_from_assessed_points() {
    let points = [0.5f32, 9.0, 0.25, 10.5];
    let centers = [0.0f32, 10.0, 100.0];
    let assess = |id: usize| AssessedPoint {
        values: bits(&centers.map(|center| (points[id] - center).powi(2))),
        vector: bits(&[points[id]]),
    };
    let (table, bytes) = generate_routing_table_pq(Metric::L2, 4, 3, 1, assess).unwrap();
    // No point is closest to the third center.
    assert_eq!(table.ids(), [2, 3]);
    assert_eq!(table.save().unwrap(), bytes);

    let products = |id: usize| AssessedPoint {
        values: bits(&[points[id], -points[id]]),
        vector: bits(&[points[id]]),
    };
    let (table, _) = generate_routing_table_pq(Metric::InnerProduct, 4, 2, 1, products).unwrap();
    assert_eq!(table.ids(), [3]);

    assert_eq!(
        generate_routing_table_pq(Metric::L2, 2, 3, 1, assess).unwrap_err(),
        RoutingError::TooFewPoints {
            points: 2,
            centers: 3
        }
    );
    assert_eq!(
        generate_routing_table_pq(Metric::Cosine, 4, 3, 1, assess).unwrap_err(),
        RoutingError::UnsupportedMetric {
            metric: Metric::Cosine
        }
    );
}

#[test]
fn training_points_are_sampled() {
    let mut rng = StdRng::seed_from_u64(3);
    let mut sampled = sample_training_points(Metric::L2, 50, 4, 20, &mut rng).unwrap();
    assert_eq!(sampled.len(), 20);
    sampled.sort_unstable();
    sampled.dedup();
    assert_eq!(sampled.len(), 20);
    assert!(sampled.iter().all(|&point| point < 50));
    assert_eq!(
        sample_training_points(Metric::L2, 3, 4, 20, &mut rng),
        Err(RoutingError::TooFewPoints {
            points: 3,
            centers: 4
        })
    );
    assert_eq!(
        sample_training_points(Metric::CosineNormalized, 50, 4, 20, &mut rng),
        Err(RoutingError::UnsupportedMetric {
            metric: Metric::CosineNormalized
        })
    );
}

#[test]
fn clones_of_tables_hold_the_same_entries() {
    let original = table(vec![4, 2], &[1.0, 2.0, 3.0, 4.0], 2);
    let clone = original.clone();
    assert_eq!(clone.ids(), &[4, 2]);
    assert_eq!(clone.dimension(), 2);
    assert_eq!(clone.save().unwrap(), original.save().unwrap());
}
