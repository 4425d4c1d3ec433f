//! Choosing, for each center, the dataset row that is nearest to it.
use crate::float_bits;
use crate::routing::generate::AssessedPoint;
use crate::routing::representatives;
use crate::routing::table::RoutingError;
use crate::routing::table::RoutingTable;
use vstd::prelude::*;

verus! {

/// The left distance is nearer than the right one. What is no number is farthest away.
pub open spec fn nearer(left: u32, right: u32) -> bool {
    !float_bits::is_nan(left) && (float_bits::is_nan(right) || float_bits::less(left, right))
}

/// Whether the left distance is nearer than the right one.
pub fn is_nearer(left: u32, right: u32) -> (result: bool)
    ensures
        result == nearer(left, right),
{
    if float_bits::is_number(left) {
        !float_bits::is_number(right) || float_bits::is_less(left, right)
    } else {
        false
    }
}

/// The distance of a row to a center.
pub open spec fn distance(rows: Seq<AssessedPoint>, row: int, center: int) -> u32 {
    rows[row].values@[center]
}

/// A row is nearer to a center than every row before it.
pub open spec fn beats_earlier(rows: Seq<AssessedPoint>, center: int, row: int) -> bool {
    forall|earlier: int|
        0 <= earlier < row ==> nearer(
            distance(rows, row, center),
            #[trigger] distance(rows, earlier, center),
        )
}

/// `row` is the row nearest to a center, the first of several.
pub open spec fn is_nearest(rows: Seq<AssessedPoint>, center: int, row: int) -> bool {
    &&& 0 <= row < rows.len()
    &&& forall|other: int|
        0 <= other < rows.len() ==> !nearer(
            #[trigger] distance(rows, other, center),
            distance(rows, row, center),
        )
    &&& beats_earlier(rows, center, row)
}

/// Some row beats the rows before it at some center, and its number is no `u32`.
pub open spec fn has_unnumbered(rows: Seq<AssessedPoint>, num_centers: int) -> bool {
    exists|row: int, center: int|
        u32::MAX < row < rows.len() && 0 <= center < num_centers && #[trigger] beats_earlier(
            rows,
            center,
            row,
        )
}

/// Rows that come later do not change which rows beat those before them.
proof fn lemma_unnumbered_stays(
    first: Seq<AssessedPoint>,
    second: Seq<AssessedPoint>,
    num_centers: int,
)
    requires
        has_unnumbered(first, num_centers),
    ensures
        has_unnumbered(first + second, num_centers),
{
    let (row, center) = choose|row: int, center: int|
        u32::MAX < row < first.len() && 0 <= center < num_centers && #[trigger] beats_earlier(
            first,
            center,
            row,
        );
    let all = first + second;
    assert(beats_earlier(all, center, row)) by {
        assert(all[row] == first[row]);
        assert forall|earlier: int| 0 <= earlier < row implies nearer(
            distance(all, row, center),
            #[trigger] distance(all, earlier, center),
        ) by {
            assert(all[earlier] == first[earlier]);
            assert(nearer(distance(first, row, center), distance(first, earlier, center)));
        }
    }
}

/// Keeps the nearest of the rows that were offered for each center.
pub struct NearestRows {
    dimension: usize,
    count: usize,
    distances: Vec<u32>,
    ids: Vec<u32>,
    vectors: Vec<u32>,
    rows: Ghost<Seq<AssessedPoint>>,
}

impl View for NearestRows {
    type V = Seq<AssessedPoint>;

    closed spec fn view(&self) -> Seq<AssessedPoint> {
        self.rows@
    }
}

impl NearestRows {
    /// The length of the vectors.
    pub closed spec fn spec_dimension(&self) -> usize {
        self.dimension
    }

    /// The number of centers.
    pub closed spec fn center_count(&self) -> nat {
        self.ids@.len()
    }

    /// Once a row was offered, the number, the distance and the vector of each center are
    /// those of its nearest row.
    pub closed spec fn wf(&self) -> bool {
        &&& self.count == self.rows@.len()
        &&& self.distances@.len() == self.ids@.len()
        &&& self.vectors@.len() == self.ids@.len() * self.dimension
        &&& forall|row: int|
            0 <= row < self.rows@.len() ==> (#[trigger] self.rows@[row]).vector@.len()
                == self.dimension
        &&& self.rows@.len() > 0 ==> forall|center: int|
            0 <= center < self.ids@.len() ==> #[trigger] self.keeps(self.rows@, center)
    }

    /// A center keeps the nearest of the given rows.
    closed spec fn keeps(&self, rows: Seq<AssessedPoint>, center: int) -> bool {
        let row = self.ids@[center] as int;
        &&& is_nearest(rows, center, row)
        &&& self.distances@[center] == distance(rows, row, center)
        &&& representatives::matrix_row(self.vectors@, self.dimension as int, center)
            == rows[row].vector@
    }

    /// No row was offered yet.
    pub fn new(num_centers: usize, dimension: usize) -> (tracker: Self)
        requires
            num_centers * dimension <= usize::MAX,
        ensures
            tracker.wf(),
            tracker@.len() == 0,
            tracker.center_count() == num_centers,
            tracker.spec_dimension() == dimension,
    {
        assert(0 <= num_centers * dimension) by (nonlinear_arith)
            requires
                0 <= num_centers,
                0 <= dimension,
        ;
        NearestRows {
            dimension,
            count: 0,
            distances: vec![0u32; num_centers],
            ids: vec![0u32; num_centers],
            vectors: vec![0u32; num_centers * dimension],
            rows: Ghost(Seq::empty()),
        }
    }

    /// The number of rows that were offered.
    pub fn len(&self) -> (count: usize)
        requires
            self.wf(),
        ensures
            count == self@.len(),
    {
        self.count
    }

    /// A center keeps its row where another row that is not nearer comes last, or takes
    /// that row where it is.
    proof fn lemma_next_nearest(
        before: Seq<AssessedPoint>,
        point: AssessedPoint,
        center: int,
        row: int,
    )
        requires
            before.len() > 0 ==> is_nearest(before, center, row),
        ensures
            ({
                let after = before.push(point);
                let last = before.len() as int;
                if before.len() == 0 || nearer(
                    point.values@[center],
                    distance(before, row, center),
                ) {
                    is_nearest(after, center, last) && beats_earlier(after, center, last)
                } else {
                    is_nearest(after, center, row) && !beats_earlier(after, center, last)
                }
            }),
    {
        let after = before.push(point);
        let last = before.len() as int;
        assert forall|at: int| 0 <= at < last implies #[trigger] distance(after, at, center)
            == distance(before, at, center) by {}
        assert(distance(after, last, center) == point.values@[center]);
        if before.len() > 0 {
            assert(distance(before, row, center) == distance(after, row, center));
            assert forall|at: int| 0 <= at < last implies !nearer(
                #[trigger] distance(after, at, center),
                distance(after, row, center),
            ) by {
                assert(!nearer(distance(before, at, center), distance(before, row, center)));
            }
            if nearer(point.values@[center], distance(before, row, center)) {
                assert forall|at: int| 0 <= at < last implies nearer(
                    distance(after, last, center),
                    #[trigger] distance(after, at, center),
                ) by {
                    assert(!nearer(distance(after, at, center), distance(after, row, center)));
                }
            } else {
                assert(beats_earlier(before, center, row));
                assert forall|at: int| 0 <= at < row implies nearer(
                    distance(after, row, center),
                    #[trigger] distance(after, at, center),
                ) by {
                    assert(nearer(distance(before, row, center), distance(before, at, center)));
                }
                assert(!beats_earlier(after, center, last)) by {
                    assert(!nearer(distance(after, last, center), distance(after, row, center)));
                }
            }
        }
    }

    /// Makes a row, the one that comes next, that of a center.
    fn take(&mut self, center: usize, point: &AssessedPoint)
        requires
            center < old(self).ids@.len(),
            old(self).distances@.len() == old(self).ids@.len(),
            old(self).vectors@.len() == old(self).ids@.len() * old(self).dimension,
            point.values@.len() == old(self).ids@.len(),
            point.vector@.len() == old(self).dimension,
            old(self).count <= u32::MAX,
        ensures
            *final(self) == (NearestRows {
                distances: final(self).distances,
                ids: final(self).ids,
                vectors: final(self).vectors,
                ..*old(self)
            }),
            final(self).distances@ == old(self).distances@.update(
                center as int,
                point.values@[center as int],
            ),
            final(self).ids@ == old(self).ids@.update(center as int, old(self).count as u32),
            final(self).vectors@.len() == old(self).vectors@.len(),
            forall|other: int|
                0 <= other < old(self).ids@.len() ==> #[trigger] representatives::matrix_row(
                    final(self).vectors@,
                    old(self).dimension as int,
                    other,
                ) == if other == center {
                    point.vector@
                } else {
                    representatives::matrix_row(
                        old(self).vectors@,
                        old(self).dimension as int,
                        other,
                    )
                },
    {
        let ghost width = self.dimension as int;
        let ghost count = self.ids@.len() as int;
        proof {
            representatives::lemma_row_in_matrix(count, width, center as int);
            assert(self.vectors.len() == self.vectors@.len());
        }
        let start: usize = center * self.dimension;
        let mut column: usize = 0;
        while column < self.dimension
            invariant
                column <= self.dimension,
                *self == (NearestRows { vectors: self.vectors, ..*old(self) }),
                start == center * self.dimension,
                point.vector@.len() == self.dimension,
                start + self.dimension <= self.vectors@.len(),
                self.vectors@.len() <= usize::MAX,
                self.vectors@.len() == old(self).vectors@.len(),
                forall|place: int|
                    0 <= place < self.vectors@.len() ==> #[trigger] self.vectors@[place] == if start
                        <= place < start + column {
                        point.vector@[place - start]
                    } else {
                        old(self).vectors@[place]
                    },
            decreases self.dimension - column,
        {
            self.vectors[start + column] = point.vector[column];
            column += 1;
        }
        self.distances[center] = point.values[center];
        self.ids[center] = self.count as u32;
        proof {
            assert forall|other: int| 0 <= other < count implies #[trigger] representatives::matrix_row(
                self.vectors@,
                width,
                other,
            ) == if other == center {
                point.vector@
            } else {
                representatives::matrix_row(old(self).vectors@, width, other)
            } by {
                representatives::lemma_row_in_matrix(count, width, other);
                let row = representatives::matrix_row(self.vectors@, width, other);
                if other == center {
                    assert(row =~= point.vector@);
                } else {
                    assert(other < center ==> other * width + width <= center * width)
                        by (nonlinear_arith)
                        requires
                            0 <= other,
                            0 <= center,
                            0 <= width,
                    ;
                    assert(center < other ==> center * width + width <= other * width)
                        by (nonlinear_arith)
                        requires
                            0 <= other,
                            0 <= center,
                            0 <= width,
                    ;
                    assert(row =~= representatives::matrix_row(old(self).vectors@, width, other));
                }
            }
        }
    }

    /// Offers a row to every center.
    pub fn offer(&mut self, point: &AssessedPoint) -> (result: Result<(), RoutingError>)
        requires
            old(self).wf(),
            point.values@.len() == old(self).center_count(),
            point.vector@.len() == old(self).spec_dimension(),
            old(self)@.len() < usize::MAX,
            !has_unnumbered(old(self)@, old(self).center_count() as int),
        ensures
            final(self).center_count() == old(self).center_count(),
            final(self).spec_dimension() == old(self).spec_dimension(),
            ({
                let rows = old(self)@.push(*point);
                if has_unnumbered(rows, old(self).center_count() as int) {
                    result == Err::<(), RoutingError>(RoutingError::TooManyPoints)
                } else {
                    result is Ok && final(self).wf() && final(self)@ == rows
                }
            }),
    {
        let ghost before = self.rows@;
        let ghost after = before.push(*point);
        let ghost last = before.len() as int;
        let count: usize = self.ids.len();
        let mut center: usize = 0;
        while center < count
            invariant
                center <= count,
                count == self.ids@.len(),
                count == old(self).ids@.len(),
                self.dimension == old(self).dimension,
                self.rows@ == before,
                before == old(self).rows@,
                after == before.push(*point),
                last == before.len(),
                self.count == last,
                self.distances@.len() == count,
                self.vectors@.len() == count * self.dimension,
                point.values@.len() == count,
                point.vector@.len() == self.dimension,
                forall|done: int| 0 <= done < center ==> #[trigger] self.keeps(after, done),
                last > 0 ==> forall|other: int|
                    center <= other < count ==> #[trigger] self.keeps(before, other),
                last > u32::MAX ==> forall|done: int|
                    0 <= done < center ==> !#[trigger] beats_earlier(after, done, last),
            decreases count - center,
        {
            let ghost current = *self;
            let ghost row = self.ids@[center as int] as int;
            proof {
                if last > 0 {
                    assert(self.keeps(before, center as int));
                }
                Self::lemma_next_nearest(before, *point, center as int, row);
            }
            if self.count == 0 || is_nearer(point.values[center], self.distances[center]) {
                if self.count as u64 > u32::MAX as u64 {
                    assert(beats_earlier(after, center as int, last));
                    return Err(RoutingError::TooManyPoints);
                }
                self.take(center, point);
                assert(after[last] == *point);
            } else {
                assert(after[row] == before[row]);
            }
            proof {
                assert(self.keeps(after, center as int));
                assert forall|done: int| 0 <= done < center + 1 implies #[trigger] self.keeps(
                    after,
                    done,
                ) by {
                    if done < center {
                        assert(current.keeps(after, done));
                    }
                }
                if last > 0 {
                    assert forall|other: int| center + 1 <= other < count implies #[trigger] self.keeps(
                        before,
                        other,
                    ) by {
                        assert(current.keeps(before, other));
                    }
                }
            }
            center += 1;
        }
        let ghost kept = *self;
        self.count = self.count + 1;
        proof {
            self.rows@ = after;
            assert forall|center: int| 0 <= center < count implies #[trigger] self.keeps(
                self.rows@,
                center,
            ) by {
                assert(kept.keeps(after, center));
            }
            if has_unnumbered(after, count as int) {
                let (row, center) = choose|row: int, center: int|
                    u32::MAX < row < after.len() && 0 <= center < count
                        && #[trigger] beats_earlier(after, center, row);
                if row < last {
                    assert(after[row] == before[row]);
                    assert forall|earlier: int| 0 <= earlier < row implies nearer(
                        distance(before, row, center),
                        #[trigger] distance(before, earlier, center),
                    ) by {
                        assert(after[earlier] == before[earlier]);
                        assert(nearer(
                            distance(after, row, center),
                            distance(after, earlier, center),
                        ));
                    }
                    assert(beats_earlier(before, center, row));
                }
            }
        }
        Ok(())
    }

    /// Offers a batch of rows to every center.
    pub fn offer_batch(&mut self, batch: &[AssessedPoint]) -> (result: Result<(), RoutingError>)
        requires
            old(self).wf(),
            forall|row: int|
                0 <= row < batch@.len() ==> (#[trigger] batch@[row]).values@.len()
                    == old(self).center_count() && batch@[row].vector@.len()
                    == old(self).spec_dimension(),
            old(self)@.len() + batch@.len() <= usize::MAX,
            !has_unnumbered(old(self)@, old(self).center_count() as int),
        ensures
            final(self).center_count() == old(self).center_count(),
            final(self).spec_dimension() == old(self).spec_dimension(),
            ({
                let rows = old(self)@ + batch@;
                if has_unnumbered(rows, old(self).center_count() as int) {
                    result == Err::<(), RoutingError>(RoutingError::TooManyPoints)
                } else {
                    result is Ok && final(self).wf() && final(self)@ == rows
                }
            }),
    {
        let ghost before = self@;
        let ghost centers = self.center_count() as int;
        let mut row: usize = 0;
        assert(before + batch@.take(0) =~= before);
        while row < batch.len()
            invariant
                row <= batch@.len(),
                self.wf(),
                self.center_count() == old(self).center_count(),
                self.spec_dimension() == old(self).spec_dimension(),
                centers == self.center_count(),
                before == old(self)@,
                forall|row: int|
                    0 <= row < batch@.len() ==> (#[trigger] batch@[row]).values@.len()
                        == self.center_count() && batch@[row].vector@.len()
                        == self.spec_dimension(),
                before.len() + batch@.len() <= usize::MAX,
                self@ == before + batch@.take(row as int),
                !has_unnumbered(self@, centers),
            decreases batch@.len() - row,
        {
            let ghost current = self@;
            assert(before + batch@.take(row + 1) =~= current.push(batch@[row as int]));
            match self.offer(&batch[row]) {
                Ok(()) => {},
                Err(error) => {
                    proof {
                        let rest = batch@.skip(row + 1);
                        lemma_unnumbered_stays(current.push(batch@[row as int]), rest, centers);
                        assert(current.push(batch@[row as int]) + rest =~= before + batch@);
                    }
                    return Err(error);
                },
            }
            row += 1;
        }
        assert(batch@.take(row as int) =~= batch@);
        Ok(())
    }

    /// The table of the nearest rows.
    pub fn finish(self) -> (result: Result<RoutingTable, RoutingError>)
        requires
            self.wf(),
            self.center_count() > 0,
            self@.len() > 0,
        ensures
            if self.spec_dimension() == 0 {
                result is Err && result->Err_0 == (RoutingError::Dimension {
                    elements: 0,
                    entries: self.center_count() as usize,
                    dimension: 0,
                })
            } else {
                &&& result is Ok
                &&& result->Ok_0.wf()
                &&& result->Ok_0.dimension == self.spec_dimension()
                &&& result->Ok_0.ids@.len() == self.center_count()
                &&& forall|center: int|
                    0 <= center < self.center_count() ==> is_nearest(
                        self@,
                        center,
                        #[trigger] result->Ok_0.ids@[center] as int,
                    ) && representatives::matrix_row(
                        result->Ok_0.vectors@,
                        self.spec_dimension() as int,
                        center,
                    ) == self@[result->Ok_0.ids@[center] as int].vector@
            },
    {
        proof {
            assert forall|center: int| 0 <= center < self.ids@.len() implies is_nearest(
                self.rows@,
                center,
                #[trigger] self.ids@[center] as int,
            ) && representatives::matrix_row(self.vectors@, self.dimension as int, center)
                == self.rows@[self.ids@[center] as int].vector@ by {
                assert(self.keeps(self.rows@, center));
            }
            let count = self.ids@.len() as int;
            assert(self.dimension == 0 ==> count * self.dimension == 0) by (nonlinear_arith);
        }
        RoutingTable::new(self.ids, self.vectors, self.dimension)
    }
}

} // verus!
