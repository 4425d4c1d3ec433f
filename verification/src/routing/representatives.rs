//! Choosing the dataset points that stand for the centers of a routing table.
use crate::float_bits;
use crate::metric::Metric;
use crate::random;
use crate::routing::table;
use crate::routing::table::RoutingError;
use crate::routing::table::RoutingTable;
use vstd::prelude::*;

verus! {

/// Dataset points that are looked at together.
pub const REPRESENTATIVE_BATCH_SIZE: usize = 1_200;

/// Whether scores are better the smaller or the larger they are.
#[derive(Debug, Clone, Copy, PartialEq, Eq, Structural)]
pub enum Preference {
    Smallest,
    Largest,
}

impl Preference {
    /// The score that every other number is better than.
    pub open spec fn worst(self) -> u32 {
        match self {
            Preference::Smallest => float_bits::INFINITY,
            Preference::Largest => float_bits::NEG_INFINITY,
        }
    }

    /// The left score is better than the right one.
    pub open spec fn prefers(self, left: u32, right: u32) -> bool {
        match self {
            Preference::Smallest => float_bits::less(left, right),
            Preference::Largest => float_bits::less(right, left),
        }
    }

    /// The score that every other number is better than.
    pub fn worst_score(self) -> (score: u32)
        ensures
            score == self.worst(),
    {
        match self {
            Preference::Smallest => float_bits::INFINITY,
            Preference::Largest => float_bits::NEG_INFINITY,
        }
    }

    /// Whether the left score is better than the right one.
    pub fn is_better(self, left: u32, right: u32) -> (better: bool)
        ensures
            better == self.prefers(left, right),
    {
        match self {
            Preference::Smallest => float_bits::is_less(left, right),
            Preference::Largest => float_bits::is_less(right, left),
        }
    }

    /// Being better is transitive.
    pub proof fn lemma_prefers_transitive(self, first: u32, second: u32, third: u32)
        requires
            self.prefers(first, second),
            self.prefers(second, third),
        ensures
            self.prefers(first, third),
    {
    }
}

/// The scores that clustering by a metric prefers: the smallest distances or the
/// largest inner products.
pub open spec fn preference_of(metric: Metric) -> Option<Preference> {
    match metric {
        Metric::L2 => Some(Preference::Smallest),
        Metric::InnerProduct => Some(Preference::Largest),
        _ => None,
    }
}

/// The scores that clustering by a metric prefers, if it can cluster by it.
pub fn routing_preference(metric: Metric) -> (result: Result<Preference, RoutingError>)
    ensures
        result == match preference_of(metric) {
            Some(preference) => Ok::<Preference, RoutingError>(preference),
            None => Err(RoutingError::UnsupportedMetric { metric }),
        },
{
    match metric {
        Metric::L2 => Ok(Preference::Smallest),
        Metric::InnerProduct => Ok(Preference::Largest),
        _ => Err(RoutingError::UnsupportedMetric { metric }),
    }
}

/// Checks that there are sampled training points enough for the centers.
pub fn check_training_count(points: usize, centers: usize) -> (result: Result<(), RoutingError>)
    ensures
        result == if points < centers {
            Err::<(), RoutingError>(RoutingError::TooFewTrainingPoints { points, centers })
        } else {
            Ok(())
        },
{
    if points < centers {
        Err(RoutingError::TooFewTrainingPoints { points, centers })
    } else {
        Ok(())
    }
}

/// Checks that there are points enough for the centers.
pub fn check_point_count(points: usize, centers: usize) -> (result: Result<(), RoutingError>)
    ensures
        result == if points < centers {
            Err::<(), RoutingError>(RoutingError::TooFewPoints { points, centers })
        } else {
            Ok(())
        },
{
    if points < centers {
        Err(RoutingError::TooFewPoints { points, centers })
    } else {
        Ok(())
    }
}

/// The number of points to train with: as many as the sampling rate asks for, at
/// least one for each center and at most all.
pub open spec fn wanted_points(sampled: usize, centers: usize, points: usize) -> usize {
    let wanted = if sampled > centers {
        sampled
    } else {
        centers
    };
    if wanted < points {
        wanted
    } else {
        points
    }
}

/// The number of points to train with.
pub fn training_size(sampled: usize, centers: usize, points: usize) -> (size: usize)
    ensures
        size == wanted_points(sampled, centers, points),
{
    let wanted: usize = if sampled > centers {
        sampled
    } else {
        centers
    };
    if wanted < points {
        wanted
    } else {
        points
    }
}

/// The points `0..count` once the first draws were carried out: draw `at`
/// exchanges the points at `at` and at the position drawn.
pub open spec fn shuffled(count: nat, draws: Seq<usize>) -> Seq<usize>
    decreases draws.len(),
{
    if draws.len() == 0 {
        Seq::new(count, |at: int| at as usize)
    } else {
        let before = shuffled(count, draws.drop_last());
        let at = draws.len() - 1;
        let drawn = draws.last() as int;
        before.update(at, before[drawn]).update(drawn, before[at])
    }
}

/// Every draw is from the positions that are left.
pub open spec fn are_draws(count: int, draws: Seq<usize>) -> bool {
    &&& draws.len() <= count
    &&& forall|at: int| 0 <= at < draws.len() ==> at <= #[trigger] draws[at] < count
}

/// Exchanging points keeps them distinct and below the count.
pub proof fn lemma_shuffled_is_permutation(count: nat, draws: Seq<usize>)
    requires
        are_draws(count as int, draws),
        count <= usize::MAX,
    ensures
        shuffled(count, draws).len() == count,
        shuffled(count, draws).no_duplicates(),
        forall|at: int|
            0 <= at < count ==> #[trigger] shuffled(count, draws)[at] < count,
    decreases draws.len(),
{
    if draws.len() > 0 {
        let front = draws.drop_last();
        assert forall|at: int| 0 <= at < front.len() implies at <= #[trigger] front[at] < count by {
            assert(front[at] == draws[at]);
        }
        lemma_shuffled_is_permutation(count, front);
        let before = shuffled(count, front);
        let after = shuffled(count, draws);
        let at = draws.len() - 1;
        let drawn = draws[at] as int;
        assert forall|i: int, j: int|
            0 <= i < count && 0 <= j < count && i != j implies after[i] != after[j] by {
            let source_i = if i == drawn {
                at
            } else if i == at {
                drawn
            } else {
                i
            };
            let source_j = if j == drawn {
                at
            } else if j == at {
                drawn
            } else {
                j
            };
            assert(after[i] == before[source_i] && after[j] == before[source_j]);
            assert(before[source_i] != before[source_j]);
        }
    }
}

/// Draws `count` of the points `0..num_points` at random, in random order.
pub fn draw_points(rng: &mut rand::rngs::StdRng, num_points: usize, count: usize) -> (sampled: Vec<
    usize,
>)
    requires
        count <= num_points,
    ensures
        exists|draws: Seq<usize>| #[trigger]
            are_draws(num_points as int, draws) && draws.len() == count && sampled@ == shuffled(
                num_points as nat,
                draws,
            ).take(count as int),
        sampled@.len() == count,
        sampled@.no_duplicates(),
        forall|at: int| 0 <= at < sampled@.len() ==> #[trigger] sampled@[at] < num_points,
{
    let mut draws: Vec<usize> = Vec::new();
    while draws.len() < count
        invariant
            draws@.len() <= count <= num_points,
            are_draws(num_points as int, draws@),
        decreases count - draws@.len(),
    {
        let drawn: usize = random::draw_position(rng, draws.len(), num_points);
        draws.push(drawn);
    }
    proof {
        lemma_shuffled_is_permutation(num_points as nat, draws@);
        lemma_sample_is_distinct(num_points as nat, draws@);
    }
    sample_points(num_points, draws.as_slice())
}

/// A random sample of the points `0..num_points`: the positions drawn decide which.
pub fn sample_points(num_points: usize, draws: &[usize]) -> (sampled: Vec<usize>)
    requires
        are_draws(num_points as int, draws@),
    ensures
        sampled@ == shuffled(num_points as nat, draws@).take(draws@.len() as int),
{
    let mut points: Vec<usize> = Vec::new();
    let mut next: usize = 0;
    while next < num_points
        invariant
            next <= num_points,
            points@ == Seq::new(next as nat, |at: int| at as usize),
        decreases num_points - next,
    {
        points.push(next);
        assert(points@ =~= Seq::new((next + 1) as nat, |at: int| at as usize));
        next += 1;
    }
    let mut at: usize = 0;
    assert(draws@.take(0) =~= Seq::<usize>::empty());
    while at < draws.len()
        invariant
            at <= draws@.len(),
            are_draws(num_points as int, draws@),
            points@.len() == num_points,
            points@ == shuffled(num_points as nat, draws@.take(at as int)),
        decreases draws@.len() - at,
    {
        assert(draws@.take(at + 1).drop_last() =~= draws@.take(at as int));
        let drawn: usize = draws[at];
        let left: usize = points[at];
        let right: usize = points[drawn];
        points[at] = right;
        points[drawn] = left;
        at += 1;
    }
    assert(draws@.take(at as int) =~= draws@);
    points.truncate(draws.len());
    points
}

/// A random sample holds no point twice, and points of the dataset only.
pub proof fn lemma_sample_is_distinct(num_points: nat, draws: Seq<usize>)
    requires
        are_draws(num_points as int, draws),
        num_points <= usize::MAX,
    ensures
        ({
            let sampled = shuffled(num_points, draws).take(draws.len() as int);
            &&& sampled.no_duplicates()
            &&& forall|at: int| 0 <= at < sampled.len() ==> #[trigger] sampled[at] < num_points
        }),
{
    lemma_shuffled_is_permutation(num_points, draws);
    let all = shuffled(num_points, draws);
    let sampled = all.take(draws.len() as int);
    assert forall|at: int| 0 <= at < sampled.len() implies #[trigger] sampled[at] < num_points by {
        assert(all[at] < num_points);
    }
    assert forall|i: int, j: int|
        0 <= i < sampled.len() && 0 <= j < sampled.len() && i != j implies sampled[i]
        != sampled[j] by {
        assert(all[i] != all[j]);
    }
}

/// The position of the best value, the first of several, and the value: position 0
/// with the worst score if no value is better than that.
pub open spec fn best_value(values: Seq<u32>, preference: Preference) -> (int, u32)
    decreases values.len(),
{
    if values.len() == 0 {
        (0, preference.worst())
    } else {
        let before = best_value(values.drop_last(), preference);
        if preference.prefers(values.last(), before.1) {
            (values.len() - 1, values.last())
        } else {
            before
        }
    }
}

/// The center with the best value for a point.
pub fn nearest_center(values: &[u32], preference: Preference) -> (nearest: (usize, u32))
    ensures
        nearest.0 == best_value(values@, preference).0,
        nearest.1 == best_value(values@, preference).1,
        values@.len() > 0 ==> nearest.0 < values@.len(),
{
    let mut best: usize = 0;
    let mut score: u32 = preference.worst_score();
    let mut at: usize = 0;
    assert(values@.take(0) =~= Seq::<u32>::empty());
    while at < values.len()
        invariant
            at <= values@.len(),
            best == best_value(values@.take(at as int), preference).0,
            score == best_value(values@.take(at as int), preference).1,
            best == 0 || best < at,
        decreases values@.len() - at,
    {
        assert(values@.take(at + 1).drop_last() =~= values@.take(at as int));
        if preference.is_better(values[at], score) {
            score = values[at];
            best = at;
        }
        at += 1;
    }
    assert(values@.take(at as int) =~= values@);
    (best, score)
}

/// No value is better than the best one.
pub proof fn lemma_best_value(values: Seq<u32>, preference: Preference, at: int)
    requires
        0 <= at < values.len(),
    ensures
        !preference.prefers(values[at], best_value(values, preference).1),
    decreases values.len(),
{
    let front = values.drop_last();
    let before = best_value(front, preference).1;
    if at < values.len() - 1 {
        lemma_best_value(front, preference, at);
        assert(front[at] == values[at]);
        if preference.prefers(values.last(), before) && preference.prefers(
            values[at],
            values.last(),
        ) {
            preference.lemma_prefers_transitive(values[at], values.last(), before);
        }
    }
}

/// A point that was offered as the representative of a center.
pub struct Offer {
    pub center: int,
    pub score: u32,
    pub point: int,
    pub vector: Seq<u32>,
}

/// The offer that a center keeps: the first of those with the best score, if any
/// is better than the worst score.
pub open spec fn kept_offer(offers: Seq<Offer>, preference: Preference, center: int) -> Option<int>
    decreases offers.len(),
{
    if offers.len() == 0 {
        None
    } else {
        let before = kept_offer(offers.drop_last(), preference, center);
        if offers.last().center == center && preference.prefers(
            offers.last().score,
            kept_score(offers, preference, before),
        ) {
            Some(offers.len() - 1)
        } else {
            before
        }
    }
}

/// The score of an offer that is kept, or the worst score.
pub open spec fn kept_score(
    offers: Seq<Offer>,
    preference: Preference,
    kept: Option<int>,
) -> u32 {
    match kept {
        Some(at) => offers[at].score,
        None => preference.worst(),
    }
}

/// `id` is the point of the offer that is kept, if one is.
spec fn has_point(offers: Seq<Offer>, kept: Option<int>, id: u32) -> bool {
    kept is Some ==> id == offers[kept->0].point as u32
}

/// `element` stands in the vector of the offer that is kept, if one is.
spec fn has_element(offers: Seq<Offer>, kept: Option<int>, column: int, element: u32) -> bool {
    kept is Some ==> element == offers[kept->0].vector[column]
}

/// An offer that is kept is one that was made to the center, and no offer to the
/// center is better.
pub proof fn lemma_kept_offer(
    offers: Seq<Offer>,
    preference: Preference,
    center: int,
    other: int,
)
    requires
        0 <= other < offers.len(),
        offers[other].center == center,
    ensures
        ({
            let kept = kept_offer(offers, preference, center);
            &&& kept is Some ==> 0 <= kept->0 < offers.len() && offers[kept->0].center == center
            &&& !preference.prefers(
                offers[other].score,
                kept_score(offers, preference, kept),
            )
        }),
    decreases offers.len(),
{
    lemma_kept_in_range(offers, preference, center);
    let front = offers.drop_last();
    let before = kept_offer(front, preference, center);
    lemma_kept_in_range(front, preference, center);
    if other < offers.len() - 1 {
        lemma_kept_offer(front, preference, center, other);
        assert(front[other] == offers[other]);
        let old_score = kept_score(offers, preference, before);
        assert(kept_score(front, preference, before) == old_score);
        if preference.prefers(offers.last().score, old_score) && preference.prefers(
            offers[other].score,
            offers.last().score,
        ) {
            preference.lemma_prefers_transitive(
                offers[other].score,
                offers.last().score,
                old_score,
            );
        }
    }
}

/// An offer that is kept was made to the center.
proof fn lemma_kept_in_range(offers: Seq<Offer>, preference: Preference, center: int)
    ensures
        ({
            let kept = kept_offer(offers, preference, center);
            kept is Some ==> 0 <= kept->0 < offers.len() && offers[kept->0].center == center
        }),
    decreases offers.len(),
{
    if offers.len() > 0 {
        lemma_kept_in_range(offers.drop_last(), preference, center);
    }
}

/// A center whose score is finite keeps an offer.
proof fn lemma_finite_is_kept(offers: Seq<Offer>, preference: Preference, center: int)
    requires
        float_bits::finite(kept_score(offers, preference, kept_offer(offers, preference, center))),
    ensures
        kept_offer(offers, preference, center) is Some,
{
}

/// Keeps the best point that was offered for each center.
pub struct RepresentativeTracker {
    preference: Preference,
    dimension: usize,
    scores: Vec<u32>,
    ids: Vec<u32>,
    vectors: Vec<u32>,
    offers: Ghost<Seq<Offer>>,
}

impl View for RepresentativeTracker {
    type V = Seq<Offer>;

    closed spec fn view(&self) -> Seq<Offer> {
        self.offers@
    }
}

impl RepresentativeTracker {
    /// What is better than what.
    pub closed spec fn spec_preference(&self) -> Preference {
        self.preference
    }

    /// The length of the vectors.
    pub closed spec fn spec_dimension(&self) -> usize {
        self.dimension
    }

    /// The number of centers.
    pub closed spec fn center_count(&self) -> nat {
        self.scores@.len()
    }

    /// The score, the ID and the vector of each center are those of the offer it keeps, if
    /// it keeps one.
    #[verifier::opaque]
    pub closed spec fn wf(&self) -> bool {
        let count = self.scores@.len() as int;
        let width = self.dimension as int;
        &&& self.ids@.len() == count
        &&& self.vectors@.len() == count * width
        &&& forall|at: int|
            0 <= at < self.offers@.len() ==> (#[trigger] self.offers@[at]).vector.len() == width
        &&& forall|center: int|
            0 <= center < count ==> #[trigger] self.scores@[center] == kept_score(
                self.offers@,
                self.preference,
                kept_offer(self.offers@, self.preference, center),
            )
        &&& forall|center: int|
            0 <= center < count ==> has_point(
                self.offers@,
                kept_offer(self.offers@, self.preference, center),
                #[trigger] self.ids@[center],
            )
        &&& forall|place: int|
            0 <= place < count * width ==> has_element(
                self.offers@,
                kept_offer(self.offers@, self.preference, place / width),
                place % width,
                #[trigger] self.vectors@[place],
            )
    }

    /// A tracker to which no point was offered.
    pub fn new(num_centers: usize, dimension: usize, preference: Preference) -> (tracker: Self)
        requires
            num_centers * dimension <= usize::MAX,
        ensures
            tracker.wf(),
            tracker@.len() == 0,
            tracker.center_count() == num_centers,
            tracker.spec_dimension() == dimension,
            tracker.spec_preference() == preference,
    {
        proof {
            reveal(RepresentativeTracker::wf);
            assert(0 <= num_centers * dimension) by (nonlinear_arith)
                requires
                    0 <= num_centers,
                    0 <= dimension,
            ;
        }
        let worst: u32 = preference.worst_score();
        RepresentativeTracker {
            preference,
            dimension,
            scores: vec![worst; num_centers],
            ids: vec![0u32; num_centers],
            vectors: vec![0u32; num_centers * dimension],
            offers: Ghost(Seq::empty()),
        }
    }

    /// Offers a point as the representative of a center.
    pub fn offer(&mut self, center: usize, score: u32, point: usize, vector: &[u32]) -> (result:
        Result<(), RoutingError>)
        requires
            old(self).wf(),
            center < old(self).center_count(),
            vector@.len() == old(self).spec_dimension(),
        ensures
            final(self).center_count() == old(self).center_count(),
            final(self).spec_dimension() == old(self).spec_dimension(),
            final(self).spec_preference() == old(self).spec_preference(),
            ({
                let offer = Offer {
                    center: center as int,
                    score,
                    point: point as int,
                    vector: vector@,
                };
                if is_refused(old(self)@, old(self).spec_preference(), offer) {
                    result == Err::<(), RoutingError>(RoutingError::TooManyPoints) && *final(self)
                        == *old(self)
                } else {
                    result is Ok && final(self).wf() && final(self)@ == old(self)@.push(offer)
                }
            }),
    {
        proof {
            reveal(RepresentativeTracker::wf);
            reveal(is_refused);
        }
        let ghost before = self.offers@;
        let ghost offer = Offer {
            center: center as int,
            score,
            point: point as int,
            vector: vector@,
        };
        let ghost after = before.push(offer);
        let ghost preference = self.preference;
        let ghost width = self.dimension as int;
        let ghost count = self.scores@.len() as int;
        let better: bool = self.preference.is_better(score, self.scores[center]);
        proof {
            assert(after.drop_last() =~= before);
            assert forall|other: int| 0 <= other < count && (other != center
                || !better) implies #[trigger] kept_offer(after, preference, other) == kept_offer(
                before,
                preference,
                other,
            ) by {
                lemma_kept_in_range(before, preference, other);
            }
            lemma_kept_in_range(before, preference, center as int);
            assert(better ==> kept_offer(after, preference, center as int) == Some(
                before.len() as int,
            ));
            assert forall|other: int| 0 <= other < count implies {
                let kept = #[trigger] kept_offer(before, preference, other);
                kept is Some ==> 0 <= kept->0 < before.len()
            } by {
                lemma_kept_in_range(before, preference, other);
            }
            assert(forall|at: int|
                0 <= at < after.len() ==> (#[trigger] after[at]).vector.len() == width);
            assert forall|place: int| 0 <= place < count * width implies 0 <= #[trigger] (place
                / width) < count && 0 <= place % width < width by {
                assert(0 <= place / width < count && 0 <= place % width < width) by (nonlinear_arith)
                    requires
                        0 <= place < count * width,
                        0 <= width,
                ;
            }
        }
        if !better {
            proof {
                self.offers@ = after;
                assert forall|place: int| 0 <= place < count * width implies has_element(
                    after,
                    kept_offer(after, preference, place / width),
                    place % width,
                    #[trigger] self.vectors@[place],
                ) by {
                    assert(0 <= place / width < count);
                }
            }
            return Ok(());
        }
        if point as u64 > u32::MAX as u64 {
            return Err(RoutingError::TooManyPoints);
        }
        let ghost old_vectors = self.vectors@;
        proof {
            let place = center as int;
            assert(0 <= place * width && place * width + width <= count * width) by (nonlinear_arith)
                requires
                    0 <= place < count,
                    0 <= width,
            ;
            assert(self.vectors.len() == count * width);
        }
        self.scores[center] = score;
        self.ids[center] = point as u32;
        self.write_vector(center, vector);
        proof {
            self.offers@ = after;
            assert forall|place: int| 0 <= place < count * width implies has_element(
                after,
                kept_offer(after, preference, place / width),
                place % width,
                #[trigger] self.vectors@[place],
            ) by {
                let other = place / width;
                assert(0 <= other < count);
                let start = center * width;
                assert(other == center ==> start <= place < start + width && place - start == place
                    % width) by (nonlinear_arith)
                    requires
                        other == place / width,
                        start == center * width,
                        0 <= place,
                        0 < width || 0 <= place % width < width,
                ;
                assert(other != center ==> !(start <= place < start + width)) by (nonlinear_arith)
                    requires
                        other == place / width,
                        start == center * width,
                        0 <= place,
                        0 < width || 0 <= place % width < width,
                ;
                assert(has_element(
                    before,
                    kept_offer(before, preference, other),
                    place % width,
                    old_vectors[place],
                ));
            }
        }
        Ok(())
    }

    /// Overwrites the vector of a center.
    fn write_vector(&mut self, center: usize, vector: &[u32])
        requires
            vector@.len() == old(self).dimension,
            center * old(self).dimension + old(self).dimension <= old(self).vectors@.len(),
            old(self).vectors@.len() <= usize::MAX,
            0 <= center * old(self).dimension,
        ensures
            *final(self) == (RepresentativeTracker { vectors: final(self).vectors, ..*old(self) }),
            final(self).vectors@.len() == old(self).vectors@.len(),
            forall|place: int|
                0 <= place < final(self).vectors@.len() ==> #[trigger] final(self).vectors@[place]
                    == if center * old(self).dimension <= place < center * old(self).dimension
                    + old(self).dimension {
                    vector@[place - center * old(self).dimension]
                } else {
                    old(self).vectors@[place]
                },
    {
        let start: usize = center * self.dimension;
        let mut column: usize = 0;
        while column < self.dimension
            invariant
                column <= self.dimension,
                *self == (RepresentativeTracker { vectors: self.vectors, ..*old(self) }),
                start == center * self.dimension,
                vector@.len() == self.dimension,
                start + self.dimension <= self.vectors@.len(),
                self.vectors@.len() <= usize::MAX,
                self.vectors@.len() == old(self).vectors@.len(),
                forall|place: int|
                    0 <= place < self.vectors@.len() ==> #[trigger] self.vectors@[place] == if start
                        <= place < start + column {
                        vector@[place - start]
                    } else {
                        old(self).vectors@[place]
                    },
            decreases self.dimension - column,
        {
            self.vectors[start + column] = vector[column];
            column += 1;
        }
    }
}

/// An offer is better than what its center keeps but its point has no ID.
#[verifier::opaque]
pub open spec fn is_refused(offers: Seq<Offer>, preference: Preference, offer: Offer) -> bool {
    &&& preference.prefers(
        offer.score,
        kept_score(offers, preference, kept_offer(offers, preference, offer.center)),
    )
    &&& offer.point > u32::MAX
}

/// Some offer of a batch that is made after `offers` is refused.
pub open spec fn batch_refused(
    offers: Seq<Offer>,
    preference: Preference,
    batch: Seq<Offer>,
) -> bool {
    exists|at: int|
        0 <= at < batch.len() && is_refused(
            offers + batch.take(at),
            preference,
            #[trigger] batch[at],
        )
}

/// The vector in row `row` of a matrix with `width` columns.
pub open spec fn matrix_row(matrix: Seq<u32>, width: int, row: int) -> Seq<u32> {
    matrix.subrange(row * width, row * width + width)
}

/// A row of a matrix lies in the matrix.
pub proof fn lemma_row_in_matrix(rows: int, width: int, row: int)
    requires
        0 <= row < rows,
        0 <= width,
    ensures
        0 <= row * width,
        row * width + width <= rows * width,
        (row + 1) * width == row * width + width,
{
    assert(0 <= row * width && row * width + width <= rows * width && (row + 1) * width == row
        * width + width) by (nonlinear_arith)
        requires
            0 <= row < rows,
            0 <= width,
    ;
}

impl RepresentativeTracker {
    /// Offers a point to the center for which it has the best value.
    pub fn assign_point(&mut self, point: usize, values: &[u32], vector: &[u32]) -> (result: Result<
        (),
        RoutingError,
    >)
        requires
            old(self).wf(),
            old(self).center_count() > 0,
            values@.len() == old(self).center_count(),
            vector@.len() == old(self).spec_dimension(),
        ensures
            final(self).center_count() == old(self).center_count(),
            final(self).spec_dimension() == old(self).spec_dimension(),
            final(self).spec_preference() == old(self).spec_preference(),
            ({
                let best = best_value(values@, old(self).spec_preference());
                let offer = Offer {
                    center: best.0,
                    score: best.1,
                    point: point as int,
                    vector: vector@,
                };
                if is_refused(old(self)@, old(self).spec_preference(), offer) {
                    result == Err::<(), RoutingError>(RoutingError::TooManyPoints)
                } else {
                    result is Ok && final(self).wf() && final(self)@ == old(self)@.push(offer)
                }
            }),
    {
        let (center, score) = nearest_center(values, self.preference);
        self.offer(center, score, point, vector)
    }
}

/// The IDs of the points that the given centers keep; each of the centers keeps one.
pub open spec fn center_ids(
    offers: Seq<Offer>,
    preference: Preference,
    centers: Seq<int>,
) -> Seq<u32> {
    Seq::new(
        centers.len(),
        |at: int| offers[kept_offer(offers, preference, centers[at])->0].point as u32,
    )
}

/// The vectors of the points that the given centers keep; each of the centers keeps one.
pub open spec fn center_vectors(
    offers: Seq<Offer>,
    preference: Preference,
    centers: Seq<int>,
    width: int,
) -> Seq<u32> {
    Seq::new(
        (centers.len() * width) as nat,
        |place: int|
            offers[kept_offer(offers, preference, centers[place / width])->0].vector[place % width],
    )
}

/// Of the first `count` centers, those that keep a point with a finite score.
pub open spec fn populated_centers(
    offers: Seq<Offer>,
    preference: Preference,
    count: nat,
) -> Seq<int>
    decreases count,
{
    if count == 0 {
        Seq::empty()
    } else {
        let before = populated_centers(offers, preference, (count - 1) as nat);
        let last = count - 1;
        let score = kept_score(offers, preference, kept_offer(offers, preference, last));
        if float_bits::finite(score) {
            before.push(last)
        } else {
            before
        }
    }
}

/// `result` is the table of the given centers, or says why there is none.
pub open spec fn is_table_of(
    offers: Seq<Offer>,
    preference: Preference,
    centers: Seq<int>,
    dimension: usize,
    result: Result<RoutingTable, RoutingError>,
) -> bool {
    let ids = center_ids(offers, preference, centers);
    let vectors = center_vectors(offers, preference, centers, dimension as int);
    match result {
        Ok(table) => {
            &&& table::table_fault(ids, vectors, dimension) is None
            &&& table.wf()
            &&& table.ids@ == ids
            &&& table.vectors@ == vectors
            &&& table.dimension == dimension
        },
        Err(error) => table::table_fault(ids, vectors, dimension) == Some(error),
    }
}

impl RepresentativeTracker {
    /// The table of the centers that keep a point with a finite score.
    pub fn finish_populated(self) -> (result: Result<RoutingTable, RoutingError>)
        requires
            self.wf(),
        ensures
            is_table_of(
                self@,
                self.spec_preference(),
                populated_centers(self@, self.spec_preference(), self.center_count()),
                self.spec_dimension(),
                result,
            ),
    {
        let ghost offers = self.offers@;
        let ghost preference = self.preference;
        let ghost width = self.dimension as int;
        let count: usize = self.scores.len();
        let mut ids: Vec<u32> = Vec::new();
        let mut vectors: Vec<u32> = Vec::new();
        let mut center: usize = 0;
        let mut start: usize = 0;
        proof {
            reveal(RepresentativeTracker::wf);
            let none = Seq::<int>::empty();
            assert(0 * width == 0) by (nonlinear_arith);
            assert(populated_centers(offers, preference, 0) =~= none);
            assert(ids@ =~= center_ids(offers, preference, none));
            assert(vectors@ =~= center_vectors(offers, preference, none, width));
            assert(self.vectors.len() == self.vectors@.len());
        }
        while center < count
            invariant
                center <= count,
                self.wf(),
                count == self.scores@.len(),
                offers == self.offers@,
                preference == self.preference,
                width == self.dimension,
                start == center * width,
                self.vectors@.len() == count * width,
                self.vectors@.len() <= usize::MAX,
                ids@ == center_ids(
                    offers,
                    preference,
                    populated_centers(offers, preference, center as nat),
                ),
                vectors@ == center_vectors(
                    offers,
                    preference,
                    populated_centers(offers, preference, center as nat),
                    width,
                ),
            decreases count - center,
        {
            let ghost before = populated_centers(offers, preference, center as nat);
            let ghost after = populated_centers(offers, preference, (center + 1) as nat);
            proof {
                reveal(RepresentativeTracker::wf);
                lemma_row_in_matrix(count as int, width, center as int);
                assert(self.scores@[center as int] == kept_score(
                    offers,
                    preference,
                    kept_offer(offers, preference, center as int),
                ));
            }
            if float_bits::is_finite(self.scores[center]) {
                let vector = vstd::slice::slice_subrange(
                    self.vectors.as_slice(),
                    start,
                    start + self.dimension,
                );
                let ghost old_vectors = vectors@;
                ids.push(self.ids[center]);
                vectors.extend_from_slice(vector);
                proof {
                    lemma_finite_is_kept(offers, preference, center as int);
                    assert(after == before.push(center as int));
                    assert(has_point(
                        offers,
                        kept_offer(offers, preference, center as int),
                        self.ids@[center as int],
                    ));
                    assert(ids@ =~= center_ids(offers, preference, after));
                    lemma_append_vector(
                        offers,
                        preference,
                        before,
                        center as int,
                        width,
                        self.vectors@,
                        count as int,
                    );
                    assert(vectors@ =~= old_vectors + vector@);
                }
            }
            start = start + self.dimension;
            center += 1;
        }
        RoutingTable::new(ids, vectors, self.dimension)
    }
}

/// The vectors of the centers with one more are the vectors with its vector.
proof fn lemma_append_vector(
    offers: Seq<Offer>,
    preference: Preference,
    before: Seq<int>,
    center: int,
    width: int,
    vectors: Seq<u32>,
    count: int,
)
    requires
        0 <= center < count,
        0 <= width,
        vectors.len() == count * width,
        forall|place: int|
            0 <= place < count * width ==> has_element(
                offers,
                kept_offer(offers, preference, place / width),
                place % width,
                #[trigger] vectors[place],
            ),
        kept_offer(offers, preference, center) is Some,
    ensures
        center_vectors(offers, preference, before.push(center), width) == center_vectors(
            offers,
            preference,
            before,
            width,
        ) + vectors.subrange(center * width, center * width + width),
{
    let after = before.push(center);
    let length = before.len() as int;
    let left = center_vectors(offers, preference, after, width);
    let right = center_vectors(offers, preference, before, width) + vectors.subrange(
        center * width,
        center * width + width,
    );
    lemma_row_in_matrix(count, width, center);
    assert((length + 1) * width == length * width + width && 0 <= length * width) by (nonlinear_arith)
        requires
            0 <= length,
            0 <= width,
    ;
    assert(left.len() == right.len());
    assert forall|place: int| 0 <= place < left.len() implies left[place] == right[place] by {
        if place < length * width {
            assert(0 <= place / width < length) by (nonlinear_arith)
                requires
                    0 <= place < length * width,
                    0 <= width,
            ;
        } else {
            let column = place - length * width;
            let source = center * width + column;
            assert(place / width == length && place % width == column && source / width == center
                && source % width == column) by (nonlinear_arith)
                requires
                    column == place - length * width,
                    source == center * width + column,
                    0 <= column < width,
            ;
            assert(has_element(
                offers,
                kept_offer(offers, preference, center),
                column,
                vectors[source],
            ));
        }
    }
    assert(left =~= right);
}

/// A score that is a finite number is better than the worst one.
pub proof fn lemma_finite_beats_worst(preference: Preference, score: u32)
    requires
        float_bits::finite(score),
    ensures
        preference.prefers(score, preference.worst()),
{
}

/// The best value stands at its position, no value is better, and every value before it that
/// is a number is worse; where no value is better than the worst score, that score comes back
/// with position 0.
pub proof fn lemma_best_value_is_first(values: Seq<u32>, preference: Preference, at: int)
    requires
        0 <= at < values.len(),
    ensures
        ({
            let (place, best) = best_value(values, preference);
            &&& 0 <= place < values.len()
            &&& !preference.prefers(values[at], best)
            &&& if preference.prefers(best, preference.worst()) {
                &&& values[place] == best
                &&& at < place && !float_bits::is_nan(values[at]) ==> preference.prefers(
                    best,
                    values[at],
                )
            } else {
                place == 0 && best == preference.worst()
            }
        }),
    decreases values.len(),
{
    let front = values.drop_last();
    let last = values.len() - 1;
    lemma_best_value(values, preference, at);
    if front.len() > 0 {
        if at < last {
            lemma_best_value_is_first(front, preference, at);
        } else {
            lemma_best_value_is_first(front, preference, 0);
        }
    } else {
        assert(best_value(front, preference) == (0int, preference.worst()));
    }
    let before = best_value(front, preference);
    assert(before.0 < front.len() ==> front[before.0] == values[before.0]);
    if preference.prefers(values.last(), before.1) && preference.prefers(
        before.1,
        preference.worst(),
    ) {
        preference.lemma_prefers_transitive(values.last(), before.1, preference.worst());
    }
    if at < last {
        assert(front[at] == values[at]);
    }
}

/// The offer that a center keeps is one that was made to it and is better than the worst
/// score; no offer to the center is better, and every earlier one that is a number is worse.
/// A center keeps none only where no offer to it is better than the worst score.
pub proof fn lemma_kept_offer_is_first(
    offers: Seq<Offer>,
    preference: Preference,
    center: int,
    other: int,
)
    requires
        0 <= other < offers.len(),
        offers[other].center == center,
    ensures
        match kept_offer(offers, preference, center) {
            Some(kept) => {
                &&& 0 <= kept < offers.len()
                &&& offers[kept].center == center
                &&& preference.prefers(offers[kept].score, preference.worst())
                &&& !preference.prefers(offers[other].score, offers[kept].score)
                &&& other < kept && !float_bits::is_nan(offers[other].score) ==> preference.prefers(
                    offers[kept].score,
                    offers[other].score,
                )
            },
            None => !preference.prefers(offers[other].score, preference.worst()),
        },
    decreases offers.len(),
{
    let front = offers.drop_last();
    let last = offers.len() - 1;
    let before = kept_offer(front, preference, center);
    lemma_kept_offer(offers, preference, center, other);
    lemma_kept_in_range(front, preference, center);
    lemma_kept_is_better(front, preference, center);
    if before is Some {
        assert(front[before->0] == offers[before->0]);
        if offers.last().center == center && preference.prefers(
            offers.last().score,
            offers[before->0].score,
        ) {
            preference.lemma_prefers_transitive(
                offers.last().score,
                offers[before->0].score,
                preference.worst(),
            );
        }
    }
    if other < last {
        assert(front[other] == offers[other]);
        lemma_kept_offer_is_first(front, preference, center, other);
    }
}

/// An offer that is kept is better than the worst score.
proof fn lemma_kept_is_better(offers: Seq<Offer>, preference: Preference, center: int)
    ensures
        kept_offer(offers, preference, center) is Some ==> preference.prefers(
            offers[kept_offer(offers, preference, center)->0].score,
            preference.worst(),
        ),
    decreases offers.len(),
{
    if offers.len() > 0 {
        let front = offers.drop_last();
        let before = kept_offer(front, preference, center);
        lemma_kept_is_better(front, preference, center);
        lemma_kept_in_range(front, preference, center);
        if before is Some {
            assert(front[before->0] == offers[before->0]);
            if preference.prefers(offers.last().score, offers[before->0].score) {
                preference.lemma_prefers_transitive(
                    offers.last().score,
                    offers[before->0].score,
                    preference.worst(),
                );
            }
        }
    }
}

/// The centers of a table are those to which an offer with a finite score was made, each
/// once, in their order.
pub proof fn lemma_populated_centers(
    offers: Seq<Offer>,
    preference: Preference,
    count: nat,
    center: int,
)
    requires
        0 <= center < count,
    ensures
        ({
            let centers = populated_centers(offers, preference, count);
            &&& centers.contains(center) <==> {
                let kept = kept_offer(offers, preference, center);
                kept is Some && float_bits::finite(offers[kept->0].score)
            }
            &&& forall|at: int| 0 <= at < centers.len() ==> 0 <= #[trigger] centers[at] < count
            &&& forall|first: int, second: int|
                0 <= first < second < centers.len() ==> centers[first] < centers[second]
        }),
    decreases count,
{
    let before = populated_centers(offers, preference, (count - 1) as nat);
    let centers = populated_centers(offers, preference, count);
    let last = count - 1;
    if count > 1 {
        lemma_populated_centers(
            offers,
            preference,
            (count - 1) as nat,
            if center < last {
                center
            } else {
                0
            },
        );
    } else {
        assert(before.len() == 0);
    }
    if centers.len() > before.len() {
        assert(centers =~= before.push(last));
        if before.contains(center) {
            let at = choose|at: int| 0 <= at < before.len() && before[at] == center;
            assert(centers[at] == center);
        }
        if centers.contains(center) && center < last {
            let at = choose|at: int| 0 <= at < centers.len() && centers[at] == center;
            assert(before[at] == center);
        }
        if center == last {
            assert(centers[before.len() as int] == center);
        }
    } else if center == last && before.contains(center) {
        let at = choose|at: int| 0 <= at < before.len() && before[at] == center;
        assert(before[at] < last);
    }
}

/// As many points are trained with as the sampling rate asks for, but no fewer than there are
/// centers and no more than there are points.
pub proof fn lemma_training_size(sampled: usize, centers: usize, points: usize)
    ensures
        ({
            let size = wanted_points(sampled, centers, points);
            &&& size <= points
            &&& size == points || (size >= sampled && size >= centers)
            &&& size <= sampled || size <= centers
        }),
{
}

/// One more draw keeps the points sampled before and adds the one that stands at the position
/// drawn; positions that were never drawn and not yet reached hold their own points.
pub proof fn lemma_draw_adds_point(num_points: nat, draws: Seq<usize>, drawn: usize, at: int)
    requires
        are_draws(num_points as int, draws.push(drawn)),
        num_points <= usize::MAX,
        0 <= at < num_points,
    ensures
        ({
            let before = shuffled(num_points, draws);
            let after = shuffled(num_points, draws.push(drawn));
            &&& after.len() == num_points
            &&& after.take(draws.len() as int) == before.take(draws.len() as int)
            &&& after[draws.len() as int] == before[drawn as int]
            &&& after[drawn as int] == before[draws.len() as int]
            &&& at != drawn && at != draws.len() ==> after[at] == before[at]
            &&& shuffled(num_points, Seq::empty())[at] == at
        }),
{
    let all = draws.push(drawn);
    assert(all.drop_last() =~= draws);
    assert(are_draws(num_points as int, draws)) by {
        assert forall|i: int| 0 <= i < draws.len() implies i <= #[trigger] draws[i]
            < num_points by {
            assert(all[i] == draws[i]);
        }
    }
    assert(all[draws.len() as int] == drawn);
    lemma_shuffled_is_permutation(num_points, draws);
    lemma_shuffled_is_permutation(num_points, all);
    let before = shuffled(num_points, draws);
    let after = shuffled(num_points, all);
    assert(after.take(draws.len() as int) =~= before.take(draws.len() as int));
}

/// Clustering by L2 prefers smaller scores, by inner product larger ones, and by no other
/// metric can points be clustered.
pub proof fn lemma_preference_by_metric(left: u32, right: u32)
    ensures
        preference_of(Metric::L2) is Some,
        preference_of(Metric::L2)->0.prefers(left, right) == float_bits::less(left, right),
        preference_of(Metric::InnerProduct) is Some,
        preference_of(Metric::InnerProduct)->0.prefers(left, right) == float_bits::less(
            right,
            left,
        ),
        preference_of(Metric::Cosine) is None,
        preference_of(Metric::CosineNormalized) is None,
{
}

} // verus!
