//! Maxsim of a packed `u8` matrix and an unpacked `u8` matrix.
use crate::arithmetic;
use crate::matrix_kernels::blocks;
use crate::matrix_kernels::blocks::{BlockTransposed, ByteRows};
use crate::matrix_kernels::maxsim::error::DriverError;
use crate::matrix_kernels::maxsim::params;
use crate::matrix_kernels::maxsim::params::{Cache, Params};
use crate::matrix_kernels::maxsim::tiles;
use vstd::prelude::*;

verus! {

/// Most that the product of two `u8` can be.
pub const MAX_PRODUCT: usize = 65025;

/// The largest even dimension whose dot products fit a `u32`.
pub const MAX_K: usize = 4294967295 / MAX_PRODUCT / 2 * 2;

/// The largest number of columns in a panel of B.
pub const MAX_NR: usize = 64;

/// `MAX_K` is the largest even dimension whose dot products all fit a `u32`.
pub proof fn lemma_accumulator_bounds_are_exact()
    ensures
        MAX_K % 2 == 0,
        MAX_K * MAX_PRODUCT <= u32::MAX,
        (MAX_K + 2) * MAX_PRODUCT > u32::MAX,
{
}

impl tiles::PairColumns for ByteRows<'_> {
    open spec fn valid(&self) -> bool {
        self.wf()
    }

    open spec fn columns(&self) -> int {
        self.rows as int
    }

    open spec fn pairs(&self) -> int {
        self.cols as int / 2
    }

    open spec fn low(&self, col: int, pair: int) -> int {
        self.value(col, 2 * pair) as int
    }

    open spec fn high(&self, col: int, pair: int) -> int {
        self.value(col, 2 * pair + 1) as int
    }

    open spec fn largest() -> int {
        255
    }

    proof fn lemma_range(&self, col: int, pair: int) {
    }

    fn count(&self) -> (count: usize) {
        self.rows
    }

    fn pair_at(&self, col: usize, pair: usize) -> (elements: (u8, u8)) {
        (self.at(col, 2 * pair), self.at(col, 2 * pair + 1))
    }
}

/// A driver for prepacked by unpacked `u8` MaxSim computations.
///
/// Columns of B are rows of `b`. The dimension `k` is the number of stored columns of
/// `a`, and thus even.
pub struct Driver<'a, const MR: usize, const NR: usize> {
    pub a: &'a BlockTransposed<MR>,
    pub b: ByteRows<'a>,
    pub c_len: usize,
    pub k: usize,
    pub params: Params,
}

/// Why matrices do not fit together.
pub open spec fn fault<const MR: usize>(
    a: &BlockTransposed<MR>,
    b: ByteRows<'_>,
    c_len: usize,
    k: usize,
) -> Option<DriverError> {
    if a.stored_cols() != k || b.cols != k {
        Some(DriverError::ContractionDimension)
    } else if arithmetic::div_ceil(c_len as int, MR as int) != a.block_count() {
        Some(DriverError::OutputLength)
    } else if k > MAX_K {
        Some(DriverError::AccumulatorBound)
    } else {
        None
    }
}

impl<'a, const MR: usize, const NR: usize> Driver<'a, MR, NR> {
    /// The matrices and the output fit together.
    pub open spec fn wf(&self) -> bool {
        &&& 0 < NR <= MAX_NR
        &&& self.a.wf()
        &&& self.b.wf()
        &&& self.params.wf()
        &&& fault(self.a, self.b, self.c_len, self.k) is None
    }

    /// Checks that matrices and an output of `c_len` results fit together.
    pub fn check(
        a: &BlockTransposed<MR>,
        b: ByteRows<'_>,
        c_len: usize,
        k: usize,
    ) -> (result: Result<(), DriverError>)
        requires
            a.wf(),
        ensures
            result == match fault(a, b, c_len, k) {
                Some(error) => Err::<(), DriverError>(error),
                None => Ok(()),
            },
    {
        if a.padded_ncols() != k || b.cols != k {
            return Err(DriverError::ContractionDimension);
        }
        if arithmetic::div_ceil_usize(c_len, MR) != a.blocks() {
            return Err(DriverError::OutputLength);
        }
        if k > MAX_K {
            return Err(DriverError::AccumulatorBound);
        }
        Ok(())
    }

    /// Prepare for a MaxSim on `a` and `b` with `c_len` results.
    pub fn new(
        a: &'a BlockTransposed<MR>,
        b: ByteRows<'a>,
        c_len: usize,
        k: usize,
        cache: Cache,
    ) -> (driver: Self)
        requires
            fault(a, b, c_len, k) is None,
            a.wf(),
            b.wf(),
            0 < NR <= MAX_NR,
            cache.l1 <= usize::MAX - MAX_NR,
        ensures
            driver.wf(),
            driver.a == a,
            driver.b == b,
            driver.c_len == c_len,
            driver.k == k,
            driver.params.a_panels_in_l2 == params::at_least_one(cache.l2 as int / (MR * k)),
            driver.params.b_cols_in_l1 == params::b_cols(cache, (MR * k) as usize, k, NR),
    {
        let a_panel: usize = a.block_stride();
        proof {
            params::lemma_b_cols(cache, a_panel, k, NR);
            assert(NR * k <= 64 * 66050) by (nonlinear_arith)
                requires
                    0 <= NR <= 64,
                    0 <= k <= 66050,
            ;
        }
        let chosen = Params::new(cache, a_panel, k, NR);
        Self::new_inner(a, b, c_len, k, chosen)
    }

    /// Prepare for a MaxSim with given blocking parameters.
    pub fn new_inner(
        a: &'a BlockTransposed<MR>,
        b: ByteRows<'a>,
        c_len: usize,
        k: usize,
        params: Params,
    ) -> (driver: Self)
        requires
            fault(a, b, c_len, k) is None,
            a.wf(),
            b.wf(),
            0 < NR <= MAX_NR,
            params.wf(),
        ensures
            driver.wf(),
            driver == (Driver::<MR, NR> { a, b, c_len, k, params }),
    {
        Driver { a, b, c_len, k, params }
    }

    /// Computes the results. `c` does not need any specific initial value.
    pub fn drive(&self, c: &mut [u32])
        requires
            self.wf(),
            old(c)@.len() == self.c_len,
        ensures
            final(c)@.len() == old(c)@.len(),
            tiles::is_maxsim(final(c)@, self.a, &self.b),
    {
        proof {
            blocks::lemma_padded_cols(self.a.cols as int);
            let most = <ByteRows<'_> as tiles::PairColumns>::largest();
            let pairs = tiles::PairColumns::pairs(&self.b);
            assert(510 * most * pairs <= 4294967295) by (nonlinear_arith)
                requires
                    most == 255,
                    pairs <= 33025,
            ;
        }
        tiles::drive(self.a, &self.b, self.params, NR, c);
    }
}

/// A result is the largest of the dot products of its row with the columns of B, which are the
/// rows of `b`: that of the column given is no larger, and the column that comes back has it.
/// A dot product is the sum of the products of the elements of the row and of the column.
pub proof fn lemma_result_is_largest_product<const MR: usize>(
    result: Seq<u32>,
    a: &BlockTransposed<MR>,
    values: Seq<u8>,
    b: ByteRows<'_>,
    row: int,
    col: int,
) -> (best: int)
    requires
        tiles::fits(a, &b),
        a.holds(values, a.rows as int, a.cols as int),
        tiles::is_maxsim(result, a, &b),
        0 <= row < a.rows,
        row < result.len(),
        0 <= col < b.rows,
    ensures
        Seq::new(
            a.cols as nat,
            |at: int| values[row * a.cols + at] * b.data@[col * b.cols + at],
        ).fold_left(0int, |sum: int, product: int| sum + product) <= result[row],
        0 <= best < b.rows,
        Seq::new(
            a.cols as nat,
            |at: int| values[row * a.cols + at] * b.data@[best * b.cols + at],
        ).fold_left(0int, |sum: int, product: int| sum + product) == result[row],
{
    tiles::lemma_best_is_maximum(a, row, &b, b.rows as nat);
    assert(result[row] == tiles::best(a, row, &b, b.rows as nat));
    let best = choose|best: int|
        0 <= best < b.rows && #[trigger] tiles::dot(a, row, &b, best) == tiles::best(
            a,
            row,
            &b,
            b.rows as nat,
        );
    lemma_dot_is_sum(a, values, b, row, col);
    lemma_dot_is_sum(a, values, b, row, best);
    best
}

/// A dot product is the sum of the products of the elements.
proof fn lemma_dot_is_sum<const MR: usize>(
    a: &BlockTransposed<MR>,
    values: Seq<u8>,
    b: ByteRows<'_>,
    row: int,
    col: int,
)
    requires
        tiles::fits(a, &b),
        a.holds(values, a.rows as int, a.cols as int),
        0 <= row < a.rows,
    ensures
        tiles::dot(a, row, &b, col) == Seq::new(
            a.cols as nat,
            |at: int| values[row * a.cols + at] * b.data@[col * b.cols + at],
        ).fold_left(0int, |sum: int, product: int| sum + product),
{
    let terms = Seq::new(
        a.cols as nat,
        |at: int| values[row * a.cols + at] * b.data@[col * b.cols + at],
    );
    tiles::lemma_dot_of_rows(a, values, row, &b, col);
    blocks::lemma_padded_cols(a.cols as int);
    assert forall|at: int| 0 <= at < terms.len() implies #[trigger] terms[at] == values[row * a.cols
        + at] * tiles::column_element(&b, col, at) by {
        assert(2 * (at / 2) + at % 2 == at);
    }
    tiles::lemma_row_dot_is_sum(values, a.cols as int, row, &b, col, a.cols as nat, terms);
    assert(terms.take(a.cols as int) =~= terms);
}

/// Matrices are accepted if the contraction dimension is the number of columns of A, rounded up
/// to an even number, and that of `b`, if the results take up exactly the blocks of A, and if
/// every dot product of that many elements fits a `u32`.
pub proof fn lemma_driver_accepts<const MR: usize>(
    a: &BlockTransposed<MR>,
    b: ByteRows<'_>,
    c_len: usize,
    k: usize,
)
    requires
        a.wf(),
    ensures
        fault(a, b, c_len, k) is None <==> {
            &&& k == a.cols + a.cols % 2
            &&& b.cols == k
            &&& (c_len + MR - 1) / MR as int == (a.rows + MR - 1) / MR as int
            &&& 65025 * k <= u32::MAX
        },
{
    blocks::lemma_padded_cols(a.cols as int);
    arithmetic::lemma_div_ceil_adds(c_len as int, MR as int);
    arithmetic::lemma_div_ceil_adds(a.rows as int, MR as int);
    assert(MAX_K == 66050);
}

} // verus!
