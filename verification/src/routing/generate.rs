//! Generating a routing table from clustered vectors.
//!
//! Vectors are read, clustered and compared elsewhere. What comes of that is handed in
//! point by point or batch by batch; here it is decided which point stands for which
//! center, and the table is put together.
use crate::float_bits;
use crate::metric::Metric;
use crate::routing::nearest;
use crate::routing::nearest::NearestRows;
use crate::routing::representatives;
use crate::routing::representatives::Preference;
use crate::routing::representatives::RepresentativeTracker;
use crate::routing::representatives::REPRESENTATIVE_BATCH_SIZE;
use crate::routing::table;
use crate::routing::table::RoutingError;
use crate::routing::table::RoutingTable;
use vstd::prelude::*;

verus! {

/// A point: its value for each center, and its vector.
pub struct AssessedPoint {
    pub values: Vec<u32>,
    pub vector: Vec<u32>,
}

impl AssessedPoint {
    /// The parts belong together.
    pub open spec fn wf(&self, num_centers: usize, dimension: usize) -> bool {
        self.values@.len() == num_centers && self.vector@.len() == dimension
    }
}

/// The points of batches, one batch after the other.
pub open spec fn rows_of(batches: Seq<Vec<AssessedPoint>>) -> Seq<AssessedPoint>
    decreases batches.len(),
{
    if batches.len() == 0 {
        Seq::empty()
    } else {
        rows_of(batches.drop_last()) + batches.last()@
    }
}

/// A batch is no longer than it may be, and the parts of its points belong together.
pub open spec fn is_batch(batch: Vec<AssessedPoint>, num_centers: usize, dimension: usize) -> bool {
    &&& batch@.len() <= REPRESENTATIVE_BATCH_SIZE
    &&& forall|row: int|
        0 <= row < batch@.len() ==> (#[trigger] batch@[row]).wf(num_centers, dimension)
}

/// The offers that points make to the centers for which they have the best values.
pub open spec fn point_offers(points: Seq<AssessedPoint>, preference: Preference) -> Seq<
    representatives::Offer,
> {
    Seq::new(
        points.len(),
        |point: int|
            {
                let best = representatives::best_value(points[point].values@, preference);
                representatives::Offer {
                    center: best.0,
                    score: best.1,
                    point,
                    vector: points[point].vector@,
                }
            },
    )
}

/// `result` is the table of the given centers with its bytes, or says why there is none.
pub open spec fn is_saved_table(
    offers: Seq<representatives::Offer>,
    preference: Preference,
    centers: Seq<int>,
    dimension: usize,
    result: Result<(RoutingTable, Vec<u8>), RoutingError>,
) -> bool {
    exists|made: Result<RoutingTable, RoutingError>| #[trigger]
        representatives::is_table_of(offers, preference, centers, dimension, made) && match made {
            Ok(table) => match table.save_fault() {
                Some(error) => result is Err && result->Err_0 == error,
                None => result is Ok && result->Ok_0.0 == table && result->Ok_0.1@ == table.image(),
            },
            Err(error) => result is Err && result->Err_0 == error,
        }
}

/// Batches that a source of batches can have given, from the first on.
pub open spec fn are_batches<F: Fn(usize) -> Vec<AssessedPoint>>(
    source: F,
    batches: Seq<Vec<AssessedPoint>>,
) -> bool {
    forall|index: int|
        0 <= index < batches.len() ==> call_ensures(
            source,
            (index as usize,),
            #[trigger] batches[index],
        )
}

/// Points that a source of points can have given, from the first on.
pub open spec fn are_points<F: Fn(usize) -> AssessedPoint>(
    source: F,
    points: Seq<AssessedPoint>,
) -> bool {
    forall|index: int|
        0 <= index < points.len() ==> call_ensures(
            source,
            (index as usize,),
            #[trigger] points[index],
        )
}

/// `table` maps each center to its nearest row: its entries are rows of the dataset, with
/// their numbers and vectors.
pub open spec fn is_nearest_table(
    rows: Seq<AssessedPoint>,
    num_centers: usize,
    dimension: usize,
    table: RoutingTable,
) -> bool {
    &&& table.wf()
    &&& table.dimension == dimension
    &&& table.ids@.len() == num_centers
    &&& forall|center: int|
        0 <= center < num_centers ==> nearest::is_nearest(
            rows,
            center,
            #[trigger] table.ids@[center] as int,
        )
    &&& forall|center: int|
        0 <= center < num_centers ==> representatives::matrix_row(
            table.vectors@,
            dimension as int,
            center,
        ) == rows[#[trigger] table.ids@[center] as int].vector@
}

/// Why the nearest rows of the centers make no table that can be saved.
pub open spec fn nearest_fault(
    rows: Seq<AssessedPoint>,
    num_centers: usize,
    dimension: usize,
) -> Option<RoutingError> {
    if rows.len() == 0 {
        Some(RoutingError::Empty)
    } else if dimension == 0 {
        Some(RoutingError::Dimension { elements: 0, entries: num_centers, dimension })
    } else if num_centers > u32::MAX {
        Some(RoutingError::TooManyEntries)
    } else if dimension > u32::MAX {
        Some(RoutingError::DimensionTooLarge)
    } else {
        None
    }
}

/// What generating a table from batches comes to.
pub open spec fn batches_give(
    batches: Seq<Vec<AssessedPoint>>,
    num_batches: usize,
    num_centers: usize,
    dimension: usize,
    num_points: usize,
    result: Result<(RoutingTable, Vec<u8>), RoutingError>,
) -> bool {
    let rows = rows_of(batches);
    if nearest::has_unnumbered(rows, num_centers as int) {
        result is Err && result->Err_0 == RoutingError::TooManyPoints
    } else {
        &&& batches.len() == num_batches
        &&& if rows.len() != num_points {
            result is Err && result->Err_0 == (RoutingError::Incomplete {
                read: rows.len() as usize,
                expected: num_points,
            })
        } else {
            match nearest_fault(rows, num_centers, dimension) {
                Some(error) => result is Err && result->Err_0 == error,
                None => {
                    &&& result is Ok
                    &&& is_nearest_table(rows, num_centers, dimension, result->Ok_0.0)
                    &&& result->Ok_0.1@ == result->Ok_0.0.image()
                },
            }
        }
    }
}

/// In a generated table every entry is a row of the dataset under its number, and no row
/// is closer to the center of the entry. A row whose distance is no number is taken only
/// where no distance is one. Of several rows that are equally close the one with the lowest
/// number is taken.
pub proof fn lemma_entries_are_nearest(
    batches: Seq<Vec<AssessedPoint>>,
    num_batches: usize,
    num_centers: usize,
    dimension: usize,
    num_points: usize,
    result: Result<(RoutingTable, Vec<u8>), RoutingError>,
    center: int,
    other: int,
)
    requires
        batches_give(batches, num_batches, num_centers, dimension, num_points, result),
        result is Ok,
        0 <= center < num_centers,
        0 <= other < num_points,
    ensures
        ({
            let rows = rows_of(batches);
            let table = result->Ok_0.0;
            let row = table.ids@[center] as int;
            &&& table.ids@.len() == num_centers
            &&& 0 <= row < num_points
            &&& representatives::matrix_row(table.vectors@, dimension as int, center)
                == rows[row].vector@
            &&& table.vectors@.subrange(center * dimension, center * dimension + dimension)
                == rows[row].vector@
            &&& !float_bits::less(rows[other].values@[center], rows[row].values@[center])
            &&& float_bits::is_nan(rows[row].values@[center]) ==> float_bits::is_nan(
                rows[other].values@[center],
            )
            &&& other < row && !float_bits::is_nan(rows[other].values@[center])
                ==> float_bits::less(rows[row].values@[center], rows[other].values@[center])
        }),
{
    let rows = rows_of(batches);
    let row = result->Ok_0.0.ids@[center] as int;
    assert(nearest::is_nearest(rows, center, row));
    assert(!nearest::nearer(
        nearest::distance(rows, other, center),
        nearest::distance(rows, row, center),
    ));
}

/// What generating a table from points comes to.
pub open spec fn points_give(
    points: Seq<AssessedPoint>,
    preference: Preference,
    num_points: usize,
    num_centers: usize,
    dimension: usize,
    result: Result<(RoutingTable, Vec<u8>), RoutingError>,
) -> bool {
    let offers = point_offers(points, preference);
    if representatives::batch_refused(Seq::empty(), preference, offers) {
        result is Err && result->Err_0 == RoutingError::TooManyPoints
    } else {
        &&& points.len() == num_points
        &&& is_saved_table(
            offers,
            preference,
            representatives::populated_centers(offers, preference, num_centers as nat),
            dimension,
            result,
        )
    }
}

/// Being refused in a longer batch is being refused before or after.
proof fn lemma_refused_in_parts(
    preference: Preference,
    first: Seq<representatives::Offer>,
    second: Seq<representatives::Offer>,
)
    ensures
        representatives::batch_refused(Seq::empty(), preference, first + second) <==> (
        representatives::batch_refused(Seq::empty(), preference, first)
            || representatives::batch_refused(first, preference, second)),
{
    let none = Seq::<representatives::Offer>::empty();
    let all = first + second;
    assert forall|at: int| 0 <= at < first.len() implies none + #[trigger] all.take(at) == none
        + first.take(at) by {
        assert(all.take(at) =~= first.take(at));
    }
    assert forall|at: int| 0 <= at < second.len() implies none + all.take(first.len() + at) == first
        + #[trigger] second.take(at) by {
        assert(none + all.take(first.len() + at) =~= first + second.take(at));
    }
    if representatives::batch_refused(none, preference, all) {
        let at = choose|at: int|
            0 <= at < all.len() && representatives::is_refused(
                none + all.take(at),
                preference,
                #[trigger] all[at],
            );
        if at < first.len() {
            assert(all.take(at) =~= first.take(at));
            assert(first[at] == all[at]);
        } else {
            let within = at - first.len();
            assert(none + all.take(at) =~= first + second.take(within));
            assert(second[within] == all[at]);
        }
    }
    if representatives::batch_refused(none, preference, first) {
        let at = choose|at: int|
            0 <= at < first.len() && representatives::is_refused(
                none + first.take(at),
                preference,
                #[trigger] first[at],
            );
        assert(all.take(at) =~= first.take(at));
        assert(all[at] == first[at]);
    }
    if representatives::batch_refused(first, preference, second) {
        let at = choose|at: int|
            0 <= at < second.len() && representatives::is_refused(
                first + second.take(at),
                preference,
                #[trigger] second[at],
            );
        assert(none + all.take(first.len() + at) =~= first + second.take(at));
        assert(all[first.len() + at] == second[at]);
    }
}

/// A table with its bytes.
fn save_table(made: Result<RoutingTable, RoutingError>) -> (result: Result<
    (RoutingTable, Vec<u8>),
    RoutingError,
>)
    requires
        made is Ok ==> made->Ok_0.wf(),
    ensures
        match made {
            Ok(table) => match table.save_fault() {
                Some(error) => result is Err && result->Err_0 == error,
                None => result is Ok && result->Ok_0.0 == table && result->Ok_0.1@ == table.image(),
            },
            Err(error) => result is Err && result->Err_0 == error,
        },
{
    match made {
        Ok(table) => match table.save() {
            Ok(bytes) => Ok((table, bytes)),
            Err(error) => Err(error),
        },
        Err(error) => Err(error),
    }
}

/// Map each of the trained centers to its nearest real dataset node.
///
/// Batch after batch, `batch` gives the points of the dataset with their distances to
/// all centers.
pub fn generate_routing_table<F: Fn(usize) -> Vec<AssessedPoint>>(
    num_training_points: usize,
    num_centers: usize,
    dimension: usize,
    num_points: usize,
    num_batches: usize,
    batch: F,
) -> (result: Result<(RoutingTable, Vec<u8>), RoutingError>)
    requires
        num_centers > 0,
        num_centers * dimension <= usize::MAX,
        num_batches * REPRESENTATIVE_BATCH_SIZE <= usize::MAX,
        forall|index: usize| index < num_batches ==> #[trigger] call_requires(batch, (index,)),
        forall|index: usize, given: Vec<AssessedPoint>| #[trigger]
            call_ensures(batch, (index,), given) ==> is_batch(given, num_centers, dimension),
    ensures
        if num_training_points < num_centers {
            result is Err && result->Err_0 == (RoutingError::TooFewTrainingPoints {
                points: num_training_points,
                centers: num_centers,
            })
        } else {
            exists|batches: Seq<Vec<AssessedPoint>>| #[trigger]
                are_batches(batch, batches) && batches.len() <= num_batches && batches_give(
                    batches,
                    num_batches,
                    num_centers,
                    dimension,
                    num_points,
                    result,
                )
        },
{
    match representatives::check_training_count(num_training_points, num_centers) {
        Ok(()) => {},
        Err(error) => {
            return Err(error);
        },
    }
    let mut tracker = NearestRows::new(num_centers, dimension);
    let ghost mut batches: Seq<Vec<AssessedPoint>> = Seq::empty();
    let mut index: usize = 0;
    assert(tracker@ =~= rows_of(batches));
    while index < num_batches
        invariant
            index <= num_batches,
            num_training_points >= num_centers,
            num_batches * REPRESENTATIVE_BATCH_SIZE <= usize::MAX,
            forall|index: usize| index < num_batches ==> #[trigger] call_requires(batch, (index,)),
            forall|index: usize, given: Vec<AssessedPoint>| #[trigger]
                call_ensures(batch, (index,), given) ==> is_batch(given, num_centers, dimension),
            are_batches(batch, batches),
            batches.len() == index,
            tracker.wf(),
            tracker.center_count() == num_centers,
            tracker.spec_dimension() == dimension,
            tracker@ == rows_of(batches),
            tracker@.len() <= index * REPRESENTATIVE_BATCH_SIZE,
            !nearest::has_unnumbered(tracker@, num_centers as int),
        decreases num_batches - index,
    {
        let given = batch(index);
        let ghost before = batches;
        proof {
            assert(is_batch(given, num_centers, dimension));
            batches = batches.push(given);
            assert(batches.drop_last() =~= before);
            assert forall|at: int| 0 <= at < batches.len() implies call_ensures(
                batch,
                (at as usize,),
                #[trigger] batches[at],
            ) by {
                if at < before.len() {
                    assert(batches[at] == before[at]);
                }
            }
        }
        match tracker.offer_batch(given.as_slice()) {
            Ok(()) => {},
            Err(error) => {
                assert(are_batches(batch, batches));
                return Err(error);
            },
        }
        index += 1;
    }
    assert(are_batches(batch, batches));
    if tracker.len() != num_points {
        return Err(RoutingError::Incomplete { read: tracker.len(), expected: num_points });
    }
    if num_points == 0 {
        return Err(RoutingError::Empty);
    }
    let table = match tracker.finish() {
        Ok(table) => table,
        Err(error) => {
            return Err(error);
        },
    };
    match table.save() {
        Ok(bytes) => Ok((table, bytes)),
        Err(error) => Err(error),
    }
}

/// The points to train centers on: a random sample of vectors that were reconstructed
/// from their compressed form. `sampled` is how many the sampling rate asks for.
pub fn sample_training_points(
    metric: Metric,
    num_points: usize,
    num_centers: usize,
    sampled: usize,
    rng: &mut rand::rngs::StdRng,
) -> (result: Result<Vec<usize>, RoutingError>)
    ensures
        if num_points < num_centers {
            result is Err && result->Err_0 == (RoutingError::TooFewPoints {
                points: num_points,
                centers: num_centers,
            })
        } else if representatives::preference_of(metric) is None {
            result is Err && result->Err_0 == (RoutingError::UnsupportedMetric { metric })
        } else {
            &&& result is Ok
            &&& result->Ok_0@.len() == representatives::wanted_points(
                sampled,
                num_centers,
                num_points,
            )
            &&& result->Ok_0@.no_duplicates()
            &&& forall|at: int|
                0 <= at < result->Ok_0@.len() ==> #[trigger] result->Ok_0@[at] < num_points
        },
{
    match representatives::check_point_count(num_points, num_centers) {
        Ok(()) => {},
        Err(error) => {
            return Err(error);
        },
    }
    match representatives::routing_preference(metric) {
        Ok(_) => {},
        Err(error) => {
            return Err(error);
        },
    }
    let count: usize = representatives::training_size(sampled, num_centers, num_points);
    Ok(representatives::draw_points(rng, num_points, count))
}

/// Map each of the centers, trained on reconstructed vectors, to the point that is best
/// for it, and keep the centers to which points were assigned.
///
/// Point after point, `assess` gives the value of the point for each center and its
/// vector.
pub fn generate_routing_table_pq<F: Fn(usize) -> AssessedPoint>(
    metric: Metric,
    num_points: usize,
    num_centers: usize,
    dimension: usize,
    assess: F,
) -> (result: Result<(RoutingTable, Vec<u8>), RoutingError>)
    requires
        num_centers > 0,
        num_centers * dimension <= usize::MAX,
        forall|id: usize| id < num_points ==> #[trigger] call_requires(assess, (id,)),
        forall|id: usize, given: AssessedPoint| #[trigger]
            call_ensures(assess, (id,), given) ==> given.wf(num_centers, dimension),
    ensures
        if num_points < num_centers {
            result is Err && result->Err_0 == (RoutingError::TooFewPoints {
                points: num_points,
                centers: num_centers,
            })
        } else if representatives::preference_of(metric) is None {
            result is Err && result->Err_0 == (RoutingError::UnsupportedMetric { metric })
        } else {
            exists|points: Seq<AssessedPoint>| #[trigger]
                are_points(assess, points) && points.len() <= num_points && points_give(
                    points,
                    representatives::preference_of(metric)->0,
                    num_points,
                    num_centers,
                    dimension,
                    result,
                )
        },
{
    match representatives::check_point_count(num_points, num_centers) {
        Ok(()) => {},
        Err(error) => {
            return Err(error);
        },
    }
    let preference: Preference = match representatives::routing_preference(metric) {
        Ok(preference) => preference,
        Err(error) => {
            return Err(error);
        },
    };
    let mut tracker = RepresentativeTracker::new(num_centers, dimension, preference);
    let ghost mut points: Seq<AssessedPoint> = Seq::empty();
    let mut id: usize = 0;
    assert(tracker@ =~= point_offers(points, preference));
    while id < num_points
        invariant
            id <= num_points,
            num_centers > 0,
            forall|id: usize| id < num_points ==> #[trigger] call_requires(assess, (id,)),
            forall|id: usize, given: AssessedPoint| #[trigger]
                call_ensures(assess, (id,), given) ==> given.wf(num_centers, dimension),
            representatives::preference_of(metric) == Some(preference),
            num_points >= num_centers,
            are_points(assess, points),
            points.len() == id,
            tracker.wf(),
            tracker.center_count() == num_centers,
            tracker.spec_dimension() == dimension,
            tracker.spec_preference() == preference,
            tracker@ == point_offers(points, preference),
            !representatives::batch_refused(Seq::empty(), preference, tracker@),
        decreases num_points - id,
    {
        let given = assess(id);
        let ghost before = points;
        let ghost offers = tracker@;
        let ghost best = representatives::best_value(given.values@, preference);
        let ghost offer = representatives::Offer {
            center: best.0,
            score: best.1,
            point: id as int,
            vector: given.vector@,
        };
        proof {
            assert(given.wf(num_centers, dimension));
            points = points.push(given);
            assert forall|at: int| 0 <= at < points.len() implies call_ensures(
                assess,
                (at as usize,),
                #[trigger] points[at],
            ) by {
                if at < before.len() {
                    assert(points[at] == before[at]);
                }
            }
            assert(point_offers(points, preference) =~= offers.push(offer));
            lemma_refused_in_parts(preference, offers, seq![offer]);
            assert(offers + seq![offer] =~= offers.push(offer));
            lemma_refused_alone(preference, offers, offer);
        }
        match tracker.assign_point(id, given.values.as_slice(), given.vector.as_slice()) {
            Ok(()) => {},
            Err(error) => {
                assert(are_points(assess, points));
                return Err(error);
            },
        }
        id += 1;
    }
    let ghost offers = tracker@;
    let made = tracker.finish_populated();
    assert(are_points(assess, points));
    assert(representatives::is_table_of(
        offers,
        preference,
        representatives::populated_centers(offers, preference, num_centers as nat),
        dimension,
        made,
    ));
    save_table(made)
}

/// A batch of one offer is refused if the offer is.
proof fn lemma_refused_alone(
    preference: Preference,
    offers: Seq<representatives::Offer>,
    offer: representatives::Offer,
)
    ensures
        representatives::batch_refused(offers, preference, seq![offer])
            <==> representatives::is_refused(offers, preference, offer),
{
    let batch = seq![offer];
    assert(offers + batch.take(0) =~= offers);
    if representatives::is_refused(offers, preference, offer) {
        assert(batch[0] == offer);
    }
}

/// An offer that is kept beat what its center kept before.
proof fn lemma_kept_beat_earlier(
    offers: Seq<representatives::Offer>,
    preference: Preference,
    center: int,
)
    ensures
        match representatives::kept_offer(offers, preference, center) {
            Some(kept) => {
                &&& 0 <= kept < offers.len()
                &&& offers[kept].center == center
                &&& preference.prefers(
                    offers[kept].score,
                    representatives::kept_score(
                        offers.take(kept),
                        preference,
                        representatives::kept_offer(offers.take(kept), preference, center),
                    ),
                )
            },
            None => true,
        },
    decreases offers.len(),
{
    if offers.len() > 0 {
        let front = offers.drop_last();
        let before = representatives::kept_offer(front, preference, center);
        lemma_kept_beat_earlier(front, preference, center);
        assert(offers.take(offers.len() - 1) =~= front);
        if before is Some {
            assert(front[before->0] == offers[before->0]);
            assert(front.take(before->0) =~= offers.take(before->0));
        }
    }
}

/// The entries of a table that was generated from points stand for different centers, in the
/// order of the centers. Each entry is a point under its number, with its vector; the center
/// it stands for is the one that the point has the best value for, and no other point whose
/// best value is for that center has a better one. Every center for which some point has its
/// best value, and a finite one, has an entry, unless another point has an infinite one that
/// is better.
pub proof fn lemma_pq_entries_stand_for_centers(
    points: Seq<AssessedPoint>,
    preference: Preference,
    num_points: usize,
    num_centers: usize,
    dimension: usize,
    result: Result<(RoutingTable, Vec<u8>), RoutingError>,
    at: int,
    later: int,
    other: int,
)
    requires
        points_give(points, preference, num_points, num_centers, dimension, result),
        result is Ok,
        forall|point: int|
            0 <= point < points.len() ==> (#[trigger] points[point]).wf(num_centers, dimension),
        0 <= at < later <= result->Ok_0.0.ids@.len(),
        0 <= other < num_points,
        num_centers > 0,
    ensures
        ({
            let table = result->Ok_0.0;
            let point = table.ids@[at] as int;
            let center = representatives::best_value(points[point].values@, preference).0;
            let score = representatives::best_value(points[point].values@, preference).1;
            let other_best = representatives::best_value(points[other].values@, preference);
            &&& table.dimension == dimension
            &&& 0 <= point < num_points
            &&& table.vectors@.subrange(at * dimension, at * dimension + dimension)
                == points[point].vector@
            &&& float_bits::finite(score)
            &&& other_best.0 == center ==> !preference.prefers(other_best.1, score)
            &&& later < table.ids@.len() ==> center < representatives::best_value(
                points[table.ids@[later] as int].values@,
                preference,
            ).0
            &&& float_bits::finite(other_best.1) && (forall|rival: int|
                0 <= rival < num_points && representatives::best_value(
                    (#[trigger] points[rival]).values@,
                    preference,
                ).0 == other_best.0 ==> {
                    let value = representatives::best_value(points[rival].values@, preference).1;
                    float_bits::finite(value) || value == preference.worst()
                }) ==> exists|entry: int|
                0 <= entry < table.ids@.len() && representatives::best_value(
                    points[#[trigger] table.ids@[entry] as int].values@,
                    preference,
                ).0 == other_best.0
        }),
{
    let table = result->Ok_0.0;
    let offers = point_offers(points, preference);
    let centers = representatives::populated_centers(offers, preference, num_centers as nat);
    let made = choose|made: Result<RoutingTable, RoutingError>| #[trigger]
        representatives::is_table_of(offers, preference, centers, dimension, made) && match made {
            Ok(table) => match table.save_fault() {
                Some(error) => result is Err && result->Err_0 == error,
                None => result is Ok && result->Ok_0.0 == table && result->Ok_0.1@ == table.image(),
            },
            Err(error) => result is Err && result->Err_0 == error,
        };
    assert(made is Ok && made->Ok_0 == table);
    assert(table.ids@ == representatives::center_ids(offers, preference, centers));
    assert(table.ids@.len() == centers.len());
    assert forall|entry: int| 0 <= entry < centers.len() implies {
        let kept = representatives::kept_offer(offers, preference, #[trigger] centers[entry]);
        &&& kept is Some
        &&& 0 <= kept->0 < num_points
        &&& table.ids@[entry] == kept->0
        &&& offers[kept->0].center == centers[entry]
        &&& float_bits::finite(offers[kept->0].score)
        &&& 0 <= centers[entry] < num_centers
    } by {
        representatives::lemma_populated_centers(offers, preference, num_centers as nat, 0);
        representatives::lemma_populated_centers(
            offers,
            preference,
            num_centers as nat,
            centers[entry],
        );
        assert(centers.contains(centers[entry]));
        lemma_kept_beat_earlier(offers, preference, centers[entry]);
        let kept = representatives::kept_offer(offers, preference, centers[entry])->0;
        let none = Seq::<representatives::Offer>::empty();
        assert(none + offers.take(kept) =~= offers.take(kept));
        assert(!representatives::is_refused(none + offers.take(kept), preference, offers[kept]));
        reveal(representatives::is_refused);
        assert(offers[kept].point == kept);
    }
    let center = centers[at];
    let kept = representatives::kept_offer(offers, preference, center)->0;
    let point = table.ids@[at] as int;
    assert(point == kept);
    assert(offers[kept].vector == points[point].vector@);
    assert(points[point].wf(num_centers, dimension));
    let width = dimension as int;
    representatives::lemma_row_in_matrix(centers.len() as int, width, at);
    assert(table.vectors@.subrange(at * width, at * width + width) =~= points[point].vector@) by {
        assert forall|column: int| 0 <= column < width implies table.vectors@[at * width + column]
            == points[point].vector@[column] by {
            crate::arithmetic::lemma_quotient_and_rest(at, column, width);
        }
    }
    if offers[other].center == center {
        representatives::lemma_kept_offer_is_first(offers, preference, center, other);
    }
    if later < table.ids@.len() {
        representatives::lemma_populated_centers(offers, preference, num_centers as nat, center);
        let late_kept = representatives::kept_offer(offers, preference, centers[later])->0;
        assert(table.ids@[later] as int == late_kept);
    }
    let other_best = representatives::best_value(points[other].values@, preference);
    if float_bits::finite(other_best.1) && (forall|rival: int|
        0 <= rival < num_points && representatives::best_value(
            (#[trigger] points[rival]).values@,
            preference,
        ).0 == other_best.0 ==> {
            let value = representatives::best_value(points[rival].values@, preference).1;
            float_bits::finite(value) || value == preference.worst()
        }) {
        assert(points[other].wf(num_centers, dimension));
        representatives::lemma_best_value_is_first(points[other].values@, preference, 0);
        representatives::lemma_kept_offer_is_first(offers, preference, other_best.0, other);
        representatives::lemma_finite_beats_worst(preference, other_best.1);
        let held = representatives::kept_offer(offers, preference, other_best.0)->0;
        assert(offers[held].score == representatives::best_value(
            points[held].values@,
            preference,
        ).1);
        assert(float_bits::finite(offers[held].score));
        representatives::lemma_populated_centers(
            offers,
            preference,
            num_centers as nat,
            other_best.0,
        );
        let entry = choose|entry: int|
            0 <= entry < centers.len() && centers[entry] == other_best.0;
        assert(table.ids@[entry] == held);
    }
}

/// The rows of a dataset are its batches, one behind the other.
pub proof fn lemma_rows_are_batches(batches: Seq<Vec<AssessedPoint>>)
    ensures
        rows_of(batches) == Seq::new(batches.len(), |at: int| batches[at]@).flatten(),
    decreases batches.len(),
{
    let parts = Seq::new(batches.len(), |at: int| batches[at]@);
    parts.lemma_flatten_and_flatten_alt_are_equivalent();
    if batches.len() > 0 {
        let fewer = batches.drop_last();
        let fewer_parts = Seq::new(fewer.len(), |at: int| fewer[at]@);
        lemma_rows_are_batches(fewer);
        fewer_parts.lemma_flatten_and_flatten_alt_are_equivalent();
        assert(parts.drop_last() =~= fewer_parts);
    }
}

/// A table is generated from every dataset whose rows were all read and can be numbered, as
/// long as there are rows and elements in them and the counts are `u32`s.
pub proof fn lemma_table_is_owed(
    batches: Seq<Vec<AssessedPoint>>,
    num_batches: usize,
    num_centers: usize,
    dimension: usize,
    num_points: usize,
    result: Result<(RoutingTable, Vec<u8>), RoutingError>,
)
    requires
        batches_give(batches, num_batches, num_centers, dimension, num_points, result),
        0 < num_points <= u32::MAX,
        rows_of(batches).len() == num_points,
        0 < num_centers <= u32::MAX,
        0 < dimension <= u32::MAX,
    ensures
        result is Ok,
        result->Ok_0.0.ids@.len() == num_centers,
        result->Ok_0.0.dimension == dimension,
        table::load_outcome(result->Ok_0.1@) == Ok::<_, RoutingError>(
            (result->Ok_0.0.ids@, result->Ok_0.0.vectors@, result->Ok_0.0.dimension),
        ) || result->Ok_0.1@.len() > usize::MAX,
{
    let made = result->Ok_0.0;
    if made.image().len() <= usize::MAX {
        table::lemma_save_load_round_trip(&made);
    }
}

/// A table is generated from points as long as the points can be numbered, the dimension and
/// the number of centers are `u32`s, and some center has a point with a finite value and none
/// with an infinite one that is better.
pub proof fn lemma_pq_table_is_owed(
    points: Seq<AssessedPoint>,
    preference: Preference,
    num_points: usize,
    num_centers: usize,
    dimension: usize,
    result: Result<(RoutingTable, Vec<u8>), RoutingError>,
    point: int,
)
    requires
        points_give(points, preference, num_points, num_centers, dimension, result),
        points.len() <= u32::MAX,
        0 < num_centers <= u32::MAX,
        0 < dimension <= u32::MAX,
        0 <= point < points.len(),
        points[point].wf(num_centers, dimension),
        float_bits::finite(
            representatives::best_value(points[point].values@, preference).1,
        ),
        forall|rival: int|
            0 <= rival < points.len() ==> {
                let best = representatives::best_value(
                    (#[trigger] points[rival]).values@,
                    preference,
                );
                float_bits::finite(best.1) || best.1 == preference.worst()
            },
    ensures
        result is Ok,
        points.len() == num_points,
        0 < result->Ok_0.0.ids@.len() <= num_centers,
        result->Ok_0.1@ == result->Ok_0.0.image(),
{
    let offers = point_offers(points, preference);
    let count = num_centers as nat;
    let centers = representatives::populated_centers(offers, preference, count);
    let best = representatives::best_value(points[point].values@, preference);
    reveal(representatives::is_refused);
    assert(!representatives::batch_refused(Seq::empty(), preference, offers));
    representatives::lemma_best_value_is_first(points[point].values@, preference, 0);
    assert(offers[point].center == best.0);
    representatives::lemma_kept_offer_is_first(offers, preference, best.0, point);
    representatives::lemma_finite_beats_worst(preference, best.1);
    let held = representatives::kept_offer(offers, preference, best.0)->0;
    assert(offers[held].score == representatives::best_value(points[held].values@, preference).1);
    representatives::lemma_populated_centers(offers, preference, count, best.0);
    assert(centers.contains(best.0));
    lemma_centers_are_few(offers, preference, count);
    let made = choose|made: Result<RoutingTable, RoutingError>| #[trigger]
        representatives::is_table_of(offers, preference, centers, dimension, made) && match made {
            Ok(table) => match table.save_fault() {
                Some(error) => result is Err && result->Err_0 == error,
                None => result is Ok && result->Ok_0.0 == table && result->Ok_0.1@ == table.image(),
            },
            Err(error) => result is Err && result->Err_0 == error,
        };
    assert(centers.len() > 0);
    assert(representatives::center_ids(offers, preference, centers).len() == centers.len());
    assert(0 <= centers.len() * dimension) by (nonlinear_arith);
    assert(table::table_fault(
        representatives::center_ids(offers, preference, centers),
        representatives::center_vectors(offers, preference, centers, dimension as int),
        dimension,
    ) is None);
    assert(made is Ok);
}

/// There are no more populated centers than centers.
proof fn lemma_centers_are_few(
    offers: Seq<representatives::Offer>,
    preference: Preference,
    count: nat,
)
    ensures
        representatives::populated_centers(offers, preference, count).len() <= count,
    decreases count,
{
    if count > 0 {
        lemma_centers_are_few(offers, preference, (count - 1) as nat);
    }
}

} // verus!
