//! The walk over two matrices that all maxsim kernels share.
//!
//! Matrix A is divided into tiles of panels that roughly occupy the L2 cache and
//! matrix B into tiles of columns that roughly occupy the L1 cache. On each pair of
//! tiles, each panel of A meets the columns of B a few at a time, and the largest dot
//! product of each row is kept.
use crate::arithmetic;
use crate::matrix_kernels::blocks;
use crate::matrix_kernels::blocks::BlockTransposed;
use crate::matrix_kernels::maxsim::params::Params;
use vstd::prelude::*;

verus! {

/// Columns whose elements are read two at a time.
pub trait PairColumns {
    /// The storage holds all columns.
    spec fn valid(&self) -> bool;

    /// Number of columns.
    spec fn columns(&self) -> int;

    /// Number of pairs in a column.
    spec fn pairs(&self) -> int;

    /// The first element of a pair.
    spec fn low(&self, col: int, pair: int) -> int;

    /// The second element of a pair.
    spec fn high(&self, col: int, pair: int) -> int;

    /// No element is larger.
    spec fn largest() -> int;

    /// The range of the elements.
    proof fn lemma_range(&self, col: int, pair: int)
        ensures
            0 <= self.low(col, pair) <= Self::largest() <= 255,
            0 <= self.high(col, pair) <= Self::largest(),
    ;

    /// Number of columns.
    fn count(&self) -> (count: usize)
        requires
            self.valid(),
        ensures
            count == self.columns(),
    ;

    /// Reads a pair.
    fn pair_at(&self, col: usize, pair: usize) -> (elements: (u8, u8))
        requires
            self.valid(),
            col < self.columns(),
            pair < self.pairs(),
        ensures
            elements.0 == self.low(col as int, pair as int),
            elements.1 == self.high(col as int, pair as int),
    ;
}

/// What a pair adds to the dot product of a row, given by its block and its lane, and
/// a column.
pub open spec fn pair_product<const MR: usize, B: PairColumns>(
    a: &BlockTransposed<MR>,
    block: int,
    lane: int,
    b: &B,
    col: int,
    pair: int,
) -> int {
    a.element(block, lane, 2 * pair) * b.low(col, pair) + a.element(block, lane, 2 * pair + 1)
        * b.high(col, pair)
}

/// The dot product over the first `count` pairs.
pub open spec fn pair_dot<const MR: usize, B: PairColumns>(
    a: &BlockTransposed<MR>,
    block: int,
    lane: int,
    b: &B,
    col: int,
    count: nat,
) -> int
    decreases count,
{
    if count == 0 {
        0
    } else {
        pair_dot(a, block, lane, b, col, (count - 1) as nat) + pair_product(
            a,
            block,
            lane,
            b,
            col,
            count - 1,
        )
    }
}

/// The dot product of a row, given by its block and its lane, and a column.
pub open spec fn lane_dot<const MR: usize, B: PairColumns>(
    a: &BlockTransposed<MR>,
    block: int,
    lane: int,
    b: &B,
    col: int,
) -> int {
    pair_dot(a, block, lane, b, col, b.pairs() as nat)
}

/// The largest dot product of a row with one of the first `count` columns, or zero.
pub open spec fn lane_best<const MR: usize, B: PairColumns>(
    a: &BlockTransposed<MR>,
    block: int,
    lane: int,
    b: &B,
    count: nat,
) -> int
    decreases count,
{
    if count == 0 {
        0
    } else {
        larger(
            lane_best(a, block, lane, b, (count - 1) as nat),
            lane_dot(a, block, lane, b, count - 1),
        )
    }
}

/// The larger of two numbers.
pub open spec fn larger(left: int, right: int) -> int {
    if left < right {
        right
    } else {
        left
    }
}

/// The dot product of a row and a column.
pub open spec fn dot<const MR: usize, B: PairColumns>(
    a: &BlockTransposed<MR>,
    row: int,
    b: &B,
    col: int,
) -> int {
    lane_dot(a, row / MR as int, row % MR as int, b, col)
}

/// The largest dot product of a row with one of the first `count` columns, or zero.
pub open spec fn best<const MR: usize, B: PairColumns>(
    a: &BlockTransposed<MR>,
    row: int,
    b: &B,
    count: nat,
) -> int {
    lane_best(a, row / MR as int, row % MR as int, b, count)
}

/// The matrices belong together, and their dot products fit an accumulator: a pair
/// adds two products of at most 255 and the largest element.
pub open spec fn fits<const MR: usize, B: PairColumns>(a: &BlockTransposed<MR>, b: &B) -> bool {
    &&& a.wf()
    &&& b.valid()
    &&& a.stored_cols() == 2 * b.pairs()
    &&& 510 * B::largest() * b.pairs() <= u32::MAX
}

/// The maxsim result of two matrices: each value is the largest dot product of its row
/// with a column.
pub open spec fn is_maxsim<const MR: usize, B: PairColumns>(
    result: Seq<u32>,
    a: &BlockTransposed<MR>,
    b: &B,
) -> bool {
    forall|row: int|
        0 <= row < result.len() ==> #[trigger] result[row] == best(a, row, b, b.columns() as nat)
}

/// Two matrices have one maxsim result: neither the tiles nor the panels in which it is
/// computed make a difference.
pub proof fn lemma_maxsim_is_unique<const MR: usize, B: PairColumns>(
    left: Seq<u32>,
    right: Seq<u32>,
    a: &BlockTransposed<MR>,
    b: &B,
)
    requires
        left.len() == right.len(),
        is_maxsim(left, a, b),
        is_maxsim(right, a, b),
    ensures
        left == right,
{
    assert forall|row: int| 0 <= row < left.len() implies left[row] == right[row] by {
        assert(left[row] == best(a, row, b, b.columns() as nat));
        assert(right[row] == best(a, row, b, b.columns() as nat));
    }
    assert(left =~= right);
}

/// No column has a larger dot product with a row than the result says, and with at
/// least one column, some column has that dot product.
pub proof fn lemma_best_is_maximum<const MR: usize, B: PairColumns>(
    a: &BlockTransposed<MR>,
    row: int,
    b: &B,
    count: nat,
)
    requires
        0 < count,
    ensures
        forall|col: int|
            0 <= col < count ==> #[trigger] dot(a, row, b, col) <= best(a, row, b, count),
        exists|col: int|
            0 <= col < count && #[trigger] dot(a, row, b, col) == best(a, row, b, count),
    decreases count,
{
    let block = row / MR as int;
    let lane = row % MR as int;
    let last = dot(a, row, b, count - 1);
    lemma_pair_dot_range(a, block, lane, b, count - 1, b.pairs() as nat);
    if count > 1 {
        lemma_best_is_maximum(a, row, b, (count - 1) as nat);
        let before = best(a, row, b, (count - 1) as nat);
        let col = choose|col: int|
            0 <= col < count - 1 && #[trigger] dot(a, row, b, col) == before;
        if before < last {
            assert(dot(a, row, b, count - 1) == best(a, row, b, count));
        } else {
            assert(dot(a, row, b, col) == best(a, row, b, count));
        }
    } else {
        assert(lane_best(a, block, lane, b, 0) == 0);
        assert(dot(a, row, b, 0) == best(a, row, b, count));
    }
}

/// A partial dot product is not negative and bounded by its number of terms.
proof fn lemma_pair_dot_range<const MR: usize, B: PairColumns>(
    a: &BlockTransposed<MR>,
    block: int,
    lane: int,
    b: &B,
    col: int,
    count: nat,
)
    ensures
        0 <= pair_dot(a, block, lane, b, col, count) <= 510 * B::largest() * count,
    decreases count,
{
    let most = B::largest();
    if count > 0 {
        let before = (count - 1) as nat;
        lemma_pair_dot_range(a, block, lane, b, col, before);
        lemma_pair_product_range(a, block, lane, b, col, count - 1);
        assert(510 * most * count == 510 * most * before + 510 * most) by (nonlinear_arith)
            requires
                count == before + 1,
        ;
    } else {
        assert(510 * most * count == 0) by (nonlinear_arith)
            requires
                count == 0,
        ;
    }
}

/// The range of what a pair adds.
proof fn lemma_pair_product_range<const MR: usize, B: PairColumns>(
    a: &BlockTransposed<MR>,
    block: int,
    lane: int,
    b: &B,
    col: int,
    pair: int,
)
    ensures
        0 <= a.element(block, lane, 2 * pair) * b.low(col, pair) <= 255 * B::largest(),
        0 <= a.element(block, lane, 2 * pair + 1) * b.high(col, pair) <= 255 * B::largest(),
        0 <= B::largest() <= 255,
{
    b.lemma_range(col, pair);
    let most = B::largest();
    let a0 = a.element(block, lane, 2 * pair) as int;
    let a1 = a.element(block, lane, 2 * pair + 1) as int;
    let b0 = b.low(col, pair);
    let b1 = b.high(col, pair);
    assert(0 <= a0 * b0 <= 255 * most && 0 <= a1 * b1 <= 255 * most) by (nonlinear_arith)
        requires
            0 <= a0 <= 255,
            0 <= a1 <= 255,
            0 <= b0 <= most,
            0 <= b1 <= most,
    ;
}

/// The accumulator holds a partial dot product.
proof fn lemma_accumulator<const MR: usize, B: PairColumns>(
    a: &BlockTransposed<MR>,
    block: int,
    lane: int,
    b: &B,
    col: int,
    count: nat,
)
    requires
        fits(a, b),
        count <= b.pairs(),
    ensures
        0 <= pair_dot(a, block, lane, b, col, count) <= u32::MAX,
{
    lemma_pair_dot_range(a, block, lane, b, col, count);
    b.lemma_range(col, 0);
    let most = B::largest();
    let pairs = b.pairs();
    assert(510 * most * count <= 510 * most * pairs) by (nonlinear_arith)
        requires
            0 <= most,
            0 <= count <= pairs,
    ;
}

/// An element of a column.
pub open spec fn column_element<B: PairColumns>(b: &B, col: int, at: int) -> int {
    if at % 2 == 0 {
        b.low(col, at / 2)
    } else {
        b.high(col, at / 2)
    }
}

/// The dot product of the first `count` elements of a row of values and a column.
pub open spec fn row_dot<B: PairColumns>(
    values: Seq<u8>,
    cols: int,
    row: int,
    b: &B,
    col: int,
    count: nat,
) -> int
    decreases count,
{
    if count == 0 {
        0
    } else {
        row_dot(values, cols, row, b, col, (count - 1) as nat) + values[row * cols + (count - 1)]
            * column_element(b, col, count - 1)
    }
}

/// For a matrix made from its rows, a dot product is that of the row: what was added to
/// an odd number of columns makes no difference, whatever the column holds there.
pub proof fn lemma_dot_of_rows<const MR: usize, B: PairColumns>(
    a: &BlockTransposed<MR>,
    values: Seq<u8>,
    row: int,
    b: &B,
    col: int,
)
    requires
        fits(a, b),
        a.holds(values, a.rows as int, a.cols as int),
        0 <= row < a.rows,
    ensures
        dot(a, row, b, col) == row_dot(values, a.cols as int, row, b, col, a.cols as nat),
{
    blocks::lemma_padded_cols(a.cols as int);
    lemma_pair_dot_of_rows(a, values, row, b, col, b.pairs() as nat);
}

proof fn lemma_pair_dot_of_rows<const MR: usize, B: PairColumns>(
    a: &BlockTransposed<MR>,
    values: Seq<u8>,
    row: int,
    b: &B,
    col: int,
    count: nat,
)
    requires
        fits(a, b),
        a.holds(values, a.rows as int, a.cols as int),
        0 <= row < a.rows,
        count <= b.pairs(),
    ensures
        pair_dot(a, row / MR as int, row % MR as int, b, col, count) == row_dot(
            values,
            a.cols as int,
            row,
            b,
            col,
            if 2 * count <= a.cols {
                2 * count
            } else {
                a.cols as nat
            },
        ),
    decreases count,
{
    let cols = a.cols as int;
    blocks::lemma_padded_cols(cols);
    arithmetic::lemma_div_ceil(a.rows as int, MR as int);
    if count > 0 {
        lemma_pair_dot_of_rows(a, values, row, b, col, (count - 1) as nat);
        let pair = count - 1;
        let start = (2 * pair) as nat;
        assert(a.value(row, 2 * pair) == blocks::source(values, a.rows as int, cols, row, 2 * pair));
        assert(a.value(row, 2 * pair + 1) == blocks::source(
            values,
            a.rows as int,
            cols,
            row,
            2 * pair + 1,
        ));
        assert(row_dot(values, cols, row, b, col, start + 1) == row_dot(
            values,
            cols,
            row,
            b,
            col,
            start,
        ) + values[row * cols + start] * b.low(col, pair));
        if 2 * count <= cols {
            assert(row_dot(values, cols, row, b, col, start + 2) == row_dot(
                values,
                cols,
                row,
                b,
                col,
                start + 1,
            ) + values[row * cols + (start + 1)] * b.high(col, pair));
        } else {
            let high = b.high(col, pair);
            assert(0 * high == 0) by (nonlinear_arith);
        }
    }
}

/// Adds to each lane what a pair of columns contributes.
fn mul_add_pair<const MR: usize, B: PairColumns>(
    a: &BlockTransposed<MR>,
    block: usize,
    b: &B,
    col: usize,
    pair: usize,
    sums: &mut Vec<u32>,
)
    requires
        fits(a, b),
        block < a.block_count(),
        col < b.columns(),
        pair < b.pairs(),
        old(sums)@.len() == MR,
        forall|lane: int|
            0 <= lane < MR ==> #[trigger] old(sums)@[lane] == pair_dot(
                a,
                block as int,
                lane,
                b,
                col as int,
                pair as nat,
            ),
    ensures
        final(sums)@.len() == MR,
        forall|lane: int|
            0 <= lane < MR ==> #[trigger] final(sums)@[lane] == pair_dot(
                a,
                block as int,
                lane,
                b,
                col as int,
                (pair + 1) as nat,
            ),
{
    let (low, high) = b.pair_at(col, pair);
    proof {
        blocks::lemma_padded_cols(a.cols as int);
    }
    let mut lane: usize = 0;
    while lane < MR
        invariant
            lane <= MR,
            fits(a, b),
            a.stored_cols() <= usize::MAX,
            block < a.block_count(),
            col < b.columns(),
            pair < b.pairs(),
            low == b.low(col as int, pair as int),
            high == b.high(col as int, pair as int),
            sums@.len() == MR,
            forall|i: int|
                lane <= i < MR ==> #[trigger] sums@[i] == pair_dot(
                    a,
                    block as int,
                    i,
                    b,
                    col as int,
                    pair as nat,
                ),
            forall|i: int|
                0 <= i < lane ==> #[trigger] sums@[i] == pair_dot(
                    a,
                    block as int,
                    i,
                    b,
                    col as int,
                    (pair + 1) as nat,
                ),
        decreases MR - lane,
    {
        let a0: u32 = a.at(block, lane, 2 * pair) as u32;
        let a1: u32 = a.at(block, lane, 2 * pair + 1) as u32;
        let sum: u32 = sums[lane];
        proof {
            lemma_pair_product_range(a, block as int, lane as int, b, col as int, pair as int);
            lemma_accumulator(a, block as int, lane as int, b, col as int, (pair + 1) as nat);
        }
        let product0: u32 = a0 * low as u32;
        let product1: u32 = a1 * high as u32;
        sums[lane] = sum + product0 + product1;
        lane += 1;
    }
}

/// The dot products of the rows of a block and a column.
fn column_dots<const MR: usize, B: PairColumns>(
    a: &BlockTransposed<MR>,
    block: usize,
    b: &B,
    col: usize,
) -> (sums: Vec<u32>)
    requires
        fits(a, b),
        block < a.block_count(),
        col < b.columns(),
    ensures
        sums@.len() == MR,
        forall|lane: int|
            0 <= lane < MR ==> #[trigger] sums@[lane] == lane_dot(
                a,
                block as int,
                lane,
                b,
                col as int,
            ),
{
    let mut sums: Vec<u32> = vec![0; MR];
    let pairs: usize = a.padded_ncols() / 2;
    let mut pair: usize = 0;
    while pair < pairs
        invariant
            pair <= pairs,
            pairs == b.pairs(),
            fits(a, b),
            block < a.block_count(),
            col < b.columns(),
            sums@.len() == MR,
            forall|lane: int|
                0 <= lane < MR ==> #[trigger] sums@[lane] == pair_dot(
                    a,
                    block as int,
                    lane,
                    b,
                    col as int,
                    pair as nat,
                ),
        decreases pairs - pair,
    {
        mul_add_pair(a, block, b, col, pair, &mut sums);
        pair += 1;
    }
    sums
}

/// The first `lanes` values are the largest dot products with the first `count`
/// columns.
spec fn lanes_hold<const MR: usize, B: PairColumns>(
    values: Seq<u32>,
    lanes: int,
    a: &BlockTransposed<MR>,
    block: int,
    b: &B,
    count: int,
) -> bool {
    &&& values.len() == MR
    &&& forall|lane: int|
        0 <= lane < lanes ==> #[trigger] values[lane] == lane_best(a, block, lane, b, count as nat)
}

/// Takes the next columns of a panel into account.
fn micro_kernel<const MR: usize, B: PairColumns>(
    a: &BlockTransposed<MR>,
    block: usize,
    b: &B,
    start: usize,
    end: usize,
    lanes: usize,
    values: &mut Vec<u32>,
)
    requires
        fits(a, b),
        block < a.block_count(),
        start <= end <= b.columns(),
        lanes <= MR,
        lanes_hold(old(values)@, lanes as int, a, block as int, b, start as int),
    ensures
        lanes_hold(final(values)@, lanes as int, a, block as int, b, end as int),
{
    let mut col: usize = start;
    while col < end
        invariant
            start <= col <= end,
            fits(a, b),
            block < a.block_count(),
            end <= b.columns(),
            lanes <= MR,
            lanes_hold(values@, lanes as int, a, block as int, b, col as int),
        decreases end - col,
    {
        let sums = column_dots(a, block, b, col);
        let mut lane: usize = 0;
        while lane < lanes
            invariant
                lane <= lanes,
                lanes <= MR,
                sums@.len() == MR,
                values@.len() == MR,
                forall|i: int|
                    0 <= i < MR ==> #[trigger] sums@[i] == lane_dot(
                        a,
                        block as int,
                        i,
                        b,
                        col as int,
                    ),
                forall|i: int|
                    lane <= i < lanes ==> #[trigger] values@[i] == lane_best(
                        a,
                        block as int,
                        i,
                        b,
                        col as nat,
                    ),
                forall|i: int|
                    0 <= i < lane ==> #[trigger] values@[i] == lane_best(
                        a,
                        block as int,
                        i,
                        b,
                        (col + 1) as nat,
                    ),
            decreases lanes - lane,
        {
            let sum: u32 = sums[lane];
            assert(values@[lane as int] == lane_best(a, block as int, lane as int, b, col as nat));
            if values[lane] < sum {
                values[lane] = sum;
            }
            lane += 1;
        }
        col += 1;
    }
}

/// Takes the columns of a tile into account, `nr` at a time and then the rest.
fn panel_kernel<const MR: usize, B: PairColumns>(
    a: &BlockTransposed<MR>,
    block: usize,
    b: &B,
    start: usize,
    end: usize,
    nr: usize,
    lanes: usize,
    values: &mut Vec<u32>,
)
    requires
        fits(a, b),
        block < a.block_count(),
        start <= end <= b.columns(),
        lanes <= MR,
        nr > 0,
        lanes_hold(old(values)@, lanes as int, a, block as int, b, start as int),
    ensures
        lanes_hold(final(values)@, lanes as int, a, block as int, b, end as int),
{
    let mut col: usize = start;
    while end - col >= nr
        invariant
            start <= col <= end,
            fits(a, b),
            block < a.block_count(),
            end <= b.columns(),
            lanes <= MR,
            nr > 0,
            lanes_hold(values@, lanes as int, a, block as int, b, col as int),
        decreases end - col,
    {
        micro_kernel(a, block, b, col, col + nr, lanes, values);
        col += nr;
    }
    if col < end {
        micro_kernel(a, block, b, col, end, lanes, values);
    }
}

/// The values of the rows of a block, filled up with zeros.
fn load_region(c: &[u32], first: usize, lanes: usize, width: usize) -> (values: Vec<u32>)
    requires
        lanes <= width,
        first + lanes <= c@.len(),
    ensures
        values@.len() == width,
        forall|lane: int| 0 <= lane < lanes ==> #[trigger] values@[lane] == c@[first + lane],
{
    assert(c.len() == c@.len());
    let mut values: Vec<u32> = vec![0; width];
    let mut lane: usize = 0;
    while lane < lanes
        invariant
            lane <= lanes,
            lanes <= width,
            first + lanes <= c@.len(),
            c@.len() <= usize::MAX,
            values@.len() == width,
            forall|i: int| 0 <= i < lane ==> #[trigger] values@[i] == c@[first + i],
        decreases lanes - lane,
    {
        values[lane] = c[first + lane];
        lane += 1;
    }
    values
}

/// Puts the values of the rows of a block back.
fn store_region(c: &mut [u32], first: usize, lanes: usize, values: &Vec<u32>)
    requires
        lanes <= values@.len(),
        first + lanes <= old(c)@.len(),
    ensures
        final(c)@.len() == old(c)@.len(),
        forall|at: int|
            0 <= at < old(c)@.len() ==> #[trigger] final(c)@[at] == if first <= at < first + lanes {
                values@[at - first]
            } else {
                old(c)@[at]
            },
{
    let ghost before = c@;
    assert(c.len() == c@.len());
    let mut lane: usize = 0;
    while lane < lanes
        invariant
            lane <= lanes,
            lanes <= values@.len(),
            first + lanes <= before.len(),
            before.len() <= usize::MAX,
            c@.len() == before.len(),
            forall|at: int|
                0 <= at < before.len() ==> #[trigger] c@[at] == if first <= at < first + lane {
                    values@[at - first]
                } else {
                    before[at]
                },
        decreases lanes - lane,
    {
        c[first + lane] = values[lane];
        lane += 1;
    }
}

/// How many columns have been taken into account for the rows of a block, at some
/// point of the walk.
spec fn seen(
    block: int,
    tile_start: int,
    tile_end: int,
    current: int,
    start: int,
    end: int,
    columns: int,
) -> int {
    if block < tile_start {
        columns
    } else if block < current {
        end
    } else if block < tile_end {
        start
    } else {
        0
    }
}

/// The state of the walk.
spec fn walked<const MR: usize, B: PairColumns>(
    c: Seq<u32>,
    a: &BlockTransposed<MR>,
    b: &B,
    tile_start: int,
    tile_end: int,
    current: int,
    start: int,
    end: int,
) -> bool {
    forall|row: int|
        0 <= row < c.len() ==> #[trigger] c[row] == best(
            a,
            row,
            b,
            seen(row / MR as int, tile_start, tile_end, current, start, end, b.columns()) as nat,
        )
}

/// Takes the columns of a tile into account for the rows of a block.
fn visit_panel<const MR: usize, B: PairColumns>(
    a: &BlockTransposed<MR>,
    b: &B,
    tile_start: usize,
    tile_end: usize,
    block: usize,
    start: usize,
    end: usize,
    nr: usize,
    c: &mut [u32],
)
    requires
        fits(a, b),
        tile_start <= block < tile_end <= a.block_count(),
        arithmetic::div_ceil(old(c)@.len() as int, MR as int) == a.block_count(),
        start <= end <= b.columns(),
        nr > 0,
        walked(
            old(c)@,
            a,
            b,
            tile_start as int,
            tile_end as int,
            block as int,
            start as int,
            end as int,
        ),
    ensures
        final(c)@.len() == old(c)@.len(),
        walked(
            final(c)@,
            a,
            b,
            tile_start as int,
            tile_end as int,
            block + 1,
            start as int,
            end as int,
        ),
{
    let ghost before = c@;
    let length: usize = c.len();
    let blocks: usize = a.blocks();
    let remainder: usize = length % MR;
    let handling_tail: bool = block == blocks - 1 && remainder != 0;
    let lanes: usize = if handling_tail {
        remainder
    } else {
        MR
    };
    proof {
        lemma_region(length as int, blocks as int, MR as int, block as int);
    }
    let first: usize = MR * block;
    let mut values = load_region(c, first, lanes, MR);
    proof {
        assert forall|lane: int| 0 <= lane < lanes implies #[trigger] values@[lane] == lane_best(
            a,
            block as int,
            lane,
            b,
            start as nat,
        ) by {
            lemma_row_of_block(block as int, lane, MR as int);
            assert(before[first + lane] == best(
                a,
                first + lane,
                b,
                seen(
                    (first + lane) / MR as int,
                    tile_start as int,
                    tile_end as int,
                    block as int,
                    start as int,
                    end as int,
                    b.columns(),
                ) as nat,
            ));
        }
    }
    panel_kernel(a, block, b, start, end, nr, lanes, &mut values);
    store_region(c, first, lanes, &values);
    proof {
        assert forall|row: int| 0 <= row < c@.len() implies #[trigger] c@[row] == best(
            a,
            row,
            b,
            seen(
                row / MR as int,
                tile_start as int,
                tile_end as int,
                block + 1,
                start as int,
                end as int,
                b.columns(),
            ) as nat,
        ) by {
            if first <= row < first + lanes {
                lemma_row_of_block(block as int, row - first, MR as int);
                assert(values@[row - first] == lane_best(
                    a,
                    block as int,
                    row - first,
                    b,
                    end as nat,
                ));
            } else {
                lemma_other_block(length as int, blocks as int, MR as int, block as int, row);
                assert(before[row] == best(
                    a,
                    row,
                    b,
                    seen(
                        row / MR as int,
                        tile_start as int,
                        tile_end as int,
                        block as int,
                        start as int,
                        end as int,
                        b.columns(),
                    ) as nat,
                ));
            }
        }
    }
}

/// The number of rows of a block that have a result.
spec fn lanes_of(length: int, blocks: int, mr: int, block: int) -> int {
    if block == blocks - 1 && length % mr != 0 {
        length % mr
    } else {
        mr
    }
}

/// The results of a block lie within all results.
proof fn lemma_region(length: int, blocks: int, mr: int, block: int)
    requires
        0 < mr,
        0 <= length,
        blocks == arithmetic::div_ceil(length, mr),
        0 <= block < blocks,
    ensures
        0 <= mr * block,
        0 <= lanes_of(length, blocks, mr, block) <= mr,
        mr * block + lanes_of(length, blocks, mr, block) <= length,
        block + 1 < blocks ==> mr * block + mr <= length,
        block + 1 == blocks ==> mr * block + lanes_of(length, blocks, mr, block) == length,
{
    let quotient = length / mr;
    let rest = length % mr;
    assert(length == mr * quotient + rest && 0 <= rest < mr && 0 <= quotient) by (nonlinear_arith)
        requires
            quotient == length / mr,
            rest == length % mr,
            0 <= length,
            0 < mr,
    ;
    assert(mr * (block + 1) == mr * block + mr) by (nonlinear_arith);
    assert(0 <= mr * block) by (nonlinear_arith)
        requires
            0 <= mr,
            0 <= block,
    ;
    if block + 1 <= quotient {
        assert(mr * (block + 1) <= mr * quotient) by (nonlinear_arith)
            requires
                block + 1 <= quotient,
                0 <= mr,
        ;
    }
}

/// A row of a block has that block and its lane.
proof fn lemma_row_of_block(block: int, lane: int, mr: int)
    requires
        0 <= lane < mr,
    ensures
        (mr * block + lane) / mr == block,
        (mr * block + lane) % mr == lane,
{
    arithmetic::lemma_quotient_and_rest(block, lane, mr);
    assert(block * mr == mr * block) by (nonlinear_arith);
}

/// A row outside the region of a block belongs to another block.
proof fn lemma_other_block(length: int, blocks: int, mr: int, block: int, row: int)
    requires
        0 < mr,
        0 <= row < length,
        blocks == arithmetic::div_ceil(length, mr),
        0 <= block < blocks,
        !(mr * block <= row < mr * block + lanes_of(length, blocks, mr, block)),
    ensures
        row / mr != block,
{
    lemma_region(length, blocks, mr, block);
    let lane = row % mr;
    assert(row == mr * (row / mr) + lane && 0 <= lane < mr) by (nonlinear_arith)
        requires
            lane == row % mr,
            0 < mr,
    ;
}

/// Computes the maxsim result, with panels of `nr` columns.
pub fn drive<const MR: usize, B: PairColumns>(
    a: &BlockTransposed<MR>,
    b: &B,
    params: Params,
    nr: usize,
    c: &mut [u32],
)
    requires
        fits(a, b),
        params.wf(),
        nr > 0,
        arithmetic::div_ceil(old(c)@.len() as int, MR as int) == a.block_count(),
    ensures
        final(c)@.len() == old(c)@.len(),
        is_maxsim(final(c)@, a, b),
{
    let length: usize = c.len();
    let blocks: usize = a.blocks();
    let columns: usize = b.count();
    fill_zero(c);
    proof {
        assert forall|row: int| 0 <= row < c@.len() implies #[trigger] c@[row] == best(
            a,
            row,
            b,
            seen(row / MR as int, 0, 0, 0, 0, 0, b.columns()) as nat,
        ) by {
            lemma_block_of_row(length as int, blocks as int, MR as int, row);
        }
    }
    let mut tile_start: usize = 0;
    while tile_start < blocks
        invariant
            tile_start <= blocks,
            fits(a, b),
            params.wf(),
            nr > 0,
            blocks == a.block_count(),
            columns == b.columns(),
            c@.len() == length,
            arithmetic::div_ceil(length as int, MR as int) == blocks,
            walked(c@, a, b, tile_start as int, tile_start as int, 0, 0, 0),
        decreases blocks - tile_start,
    {
        let tile_end: usize = if blocks - tile_start < params.a_panels_in_l2 {
            blocks
        } else {
            tile_start + params.a_panels_in_l2
        };
        let mut start: usize = 0;
        while start < columns
            invariant
                start <= columns,
                tile_start < tile_end <= blocks,
                fits(a, b),
                params.wf(),
                nr > 0,
                blocks == a.block_count(),
                columns == b.columns(),
                c@.len() == length,
                arithmetic::div_ceil(length as int, MR as int) == blocks,
                walked(c@, a, b, tile_start as int, tile_end as int, 0, start as int, 0),
            decreases columns - start,
        {
            let end: usize = if columns - start < params.b_cols_in_l1 {
                columns
            } else {
                start + params.b_cols_in_l1
            };
            let mut block: usize = tile_start;
            while block < tile_end
                invariant
                    tile_start <= block <= tile_end <= blocks,
                    start < end <= columns,
                    fits(a, b),
                    nr > 0,
                    blocks == a.block_count(),
                    columns == b.columns(),
                    c@.len() == length,
                    arithmetic::div_ceil(length as int, MR as int) == blocks,
                    walked(
                        c@,
                        a,
                        b,
                        tile_start as int,
                        tile_end as int,
                        block as int,
                        start as int,
                        end as int,
                    ),
                decreases tile_end - block,
            {
                visit_panel(a, b, tile_start, tile_end, block, start, end, nr, c);
                block += 1;
            }
            start = end;
        }
        tile_start = tile_end;
    }
    proof {
        assert forall|row: int| 0 <= row < c@.len() implies #[trigger] c@[row] == best(
            a,
            row,
            b,
            b.columns() as nat,
        ) by {
            lemma_block_of_row(length as int, blocks as int, MR as int, row);
        }
    }
}

/// Every row with a result belongs to a block.
proof fn lemma_block_of_row(length: int, blocks: int, mr: int, row: int)
    requires
        0 < mr,
        0 <= row < length,
        blocks == arithmetic::div_ceil(length, mr),
    ensures
        0 <= row / mr < blocks,
{
    arithmetic::lemma_div_ceil(length, mr);
    blocks::lemma_row_in_block(row, blocks, mr);
}

/// Sets all values to zero.
fn fill_zero(c: &mut [u32])
    ensures
        final(c)@.len() == old(c)@.len(),
        forall|at: int| 0 <= at < old(c)@.len() ==> #[trigger] final(c)@[at] == 0,
{
    let length: usize = c.len();
    let mut at: usize = 0;
    while at < length
        invariant
            at <= length,
            c@.len() == length,
            forall|i: int| 0 <= i < at ==> #[trigger] c@[i] == 0,
        decreases length - at,
    {
        c[at] = 0;
        at += 1;
    }
}

/// A dot product of a row of values and a column is the sum of the products of their
/// elements.
pub proof fn lemma_row_dot_is_sum<B: PairColumns>(
    values: Seq<u8>,
    cols: int,
    row: int,
    b: &B,
    col: int,
    count: nat,
    terms: Seq<int>,
)
    requires
        count <= terms.len(),
        forall|at: int|
            0 <= at < terms.len() ==> #[trigger] terms[at] == values[row * cols + at]
                * column_element(b, col, at),
    ensures
        row_dot(values, cols, row, b, col, count) == terms.take(count as int).fold_left(
            0int,
            |sum: int, product: int| sum + product,
        ),
    decreases count,
{
    if count > 0 {
        lemma_row_dot_is_sum(values, cols, row, b, col, (count - 1) as nat, terms);
        assert(terms.take(count as int).drop_last() =~= terms.take(count - 1));
        assert(terms[count - 1] == values[row * cols + (count - 1)] * column_element(
            b,
            col,
            count - 1,
        ));
    }
}

} // verus!
