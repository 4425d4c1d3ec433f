//! Maxsim of a packed `u8` matrix and an unpacked `u4` matrix.
//!
//! Two adjacent `u8` values of the packed matrix meet the matching pair of `u4` values,
//! which is one byte.
use crate::arithmetic;
use crate::matrix_kernels::blocks;
use crate::matrix_kernels::blocks::{BlockTransposed, ByteRows};
use crate::matrix_kernels::maxsim::error::DriverError;
use crate::matrix_kernels::maxsim::packed_u8_x_unpacked_u8::MAX_NR;
use crate::matrix_kernels::maxsim::params;
use crate::matrix_kernels::maxsim::params::{Cache, Params};
use crate::matrix_kernels::maxsim::tiles;
use vstd::prelude::*;

verus! {

/// Most that a pair of a `u8` and a `u4` product can be.
pub const MAX_PAIR_PRODUCT: usize = 7650;

/// The largest number of pairs whose dot products fit a `u32`.
pub const MAX_K_PAIRS: usize = 4294967295 / MAX_PAIR_PRODUCT;

/// `MAX_K_PAIRS` is the largest number of pairs whose dot products all fit a `u32`.
pub proof fn lemma_pair_bounds_are_exact()
    ensures
        MAX_K_PAIRS * MAX_PAIR_PRODUCT <= u32::MAX,
        (MAX_K_PAIRS + 1) * MAX_PAIR_PRODUCT > u32::MAX,
{
}

/// The columns of B: each byte stores two `u4` values, low nibble first.
#[derive(Debug, Clone, Copy)]
pub struct NibbleColumns<'a> {
    pub bytes: ByteRows<'a>,
}

impl tiles::PairColumns for NibbleColumns<'_> {
    open spec fn valid(&self) -> bool {
        self.bytes.wf()
    }

    open spec fn columns(&self) -> int {
        self.bytes.rows as int
    }

    open spec fn pairs(&self) -> int {
        self.bytes.cols as int
    }

    open spec fn low(&self, col: int, pair: int) -> int {
        self.bytes.value(col, pair) as int % 16
    }

    open spec fn high(&self, col: int, pair: int) -> int {
        self.bytes.value(col, pair) as int / 16
    }

    open spec fn largest() -> int {
        15
    }

    proof fn lemma_range(&self, col: int, pair: int) {
    }

    fn count(&self) -> (count: usize) {
        self.bytes.rows
    }

    fn pair_at(&self, col: usize, pair: usize) -> (elements: (u8, u8)) {
        let byte: u8 = self.bytes.at(col, pair);
        assert(byte & 0x0f == byte % 16 && byte >> 4 == byte / 16) by (bit_vector);
        (byte & 0x0f, byte >> 4)
    }
}

/// The columns that were added to make pairs are zero.
pub open spec fn padding_is_zero<const MR: usize>(a: &BlockTransposed<MR>) -> bool {
    forall|block: int, lane: int, col: int|
        0 <= block < a.block_count() && 0 <= lane < MR && a.cols <= col < a.stored_cols()
            ==> #[trigger] a.element(block, lane, col) == 0
}

/// A matrix made from its rows can be read as pairs.
pub proof fn lemma_rows_make_pairs<const MR: usize>(a: &BlockTransposed<MR>, values: Seq<u8>)
    requires
        a.wf(),
        a.holds(values, a.rows as int, a.cols as int),
    ensures
        padding_is_zero(a),
{
    assert forall|block: int, lane: int, col: int|
        0 <= block < a.block_count() && 0 <= lane < MR && a.cols <= col
            < a.stored_cols() implies #[trigger] a.element(block, lane, col) == 0 by {
        let row = block * MR + lane;
        let blocks = a.block_count();
        let mr = MR as int;
        arithmetic::lemma_quotient_and_rest(block, lane, mr);
        assert(0 <= block * mr && block * mr + mr <= blocks * mr) by (nonlinear_arith)
            requires
                0 <= block,
                block + 1 <= blocks,
                0 <= mr,
        ;
        assert(a.value(row, col) == 0);
    }
}

/// A packed matrix whose elements are read as pairs.
pub struct PairView<'a, const MR: usize> {
    pub matrix: &'a BlockTransposed<MR>,
}

impl<'a, const MR: usize> PairView<'a, MR> {
    /// What was added to an odd number of columns adds nothing to a dot product.
    pub open spec fn wf(&self) -> bool {
        self.matrix.wf() && padding_is_zero(self.matrix)
    }

    /// Number of pairs in a row.
    pub open spec fn pairs(&self) -> int {
        self.matrix.stored_cols() / 2
    }

    /// Reads a matrix as pairs, if the column that completes the last pair is zero.
    pub fn from_u8_pairs(matrix: &'a BlockTransposed<MR>) -> (view: Option<Self>)
        requires
            matrix.wf(),
        ensures
            view is Some <==> padding_is_zero(matrix),
            view is Some ==> view->0.wf() && view->0.matrix == matrix,
    {
        proof {
            blocks::lemma_padded_cols(matrix.cols as int);
        }
        if matrix.cols % 2 == 0 {
            return Some(PairView { matrix });
        }
        let blocks: usize = matrix.blocks();
        let col: usize = matrix.cols;
        let mut block: usize = 0;
        while block < blocks
            invariant
                block <= blocks,
                matrix.wf(),
                blocks == matrix.block_count(),
                col == matrix.cols,
                matrix.stored_cols() == col + 1,
                forall|b: int, l: int, c: int|
                    0 <= b < block && 0 <= l < MR && col <= c < matrix.stored_cols()
                        ==> #[trigger] matrix.element(b, l, c) == 0,
            decreases blocks - block,
        {
            let mut lane: usize = 0;
            while lane < MR
                invariant
                    lane <= MR,
                    block < blocks,
                    matrix.wf(),
                    blocks == matrix.block_count(),
                    col == matrix.cols,
                    matrix.stored_cols() == col + 1,
                    forall|b: int, l: int, c: int|
                        0 <= b < block && 0 <= l < MR && col <= c < matrix.stored_cols()
                            ==> #[trigger] matrix.element(b, l, c) == 0,
                    forall|l: int, c: int|
                        0 <= l < lane && col <= c < matrix.stored_cols()
                            ==> #[trigger] matrix.element(block as int, l, c) == 0,
                decreases MR - lane,
            {
                if matrix.at(block, lane, col) != 0 {
                    assert(matrix.element(block as int, lane as int, col as int) != 0);
                    return None;
                }
                lane += 1;
            }
            block += 1;
        }
        Some(PairView { matrix })
    }
}

/// A driver for prepacked `u8` by unpacked `u4` maxsim computations.
///
/// Each element of `b` stores two `u4` values, low nibble first. Consequently, `k` is
/// measured in pairs and odd logical dimensions rely on the zero-padding in `a`.
pub struct Driver<'a, const MR: usize, const NR: usize> {
    pub a: PairView<'a, MR>,
    pub b: NibbleColumns<'a>,
    pub c_len: usize,
    pub k: usize,
    pub params: Params,
}

/// Why matrices do not fit together.
pub open spec fn fault<const MR: usize>(
    a: &BlockTransposed<MR>,
    b: ByteRows<'_>,
    c_len: usize,
    k: usize,
) -> Option<DriverError> {
    if a.stored_cols() / 2 != k || b.cols != k {
        Some(DriverError::ContractionDimension)
    } else if arithmetic::div_ceil(c_len as int, MR as int) != a.block_count() {
        Some(DriverError::OutputLength)
    } else if k > MAX_K_PAIRS {
        Some(DriverError::AccumulatorCapacity)
    } else {
        None
    }
}

impl<'a, const MR: usize, const NR: usize> Driver<'a, MR, NR> {
    /// The matrices and the output fit together.
    pub open spec fn wf(&self) -> bool {
        &&& 0 < NR <= MAX_NR
        &&& self.a.wf()
        &&& self.b.bytes.wf()
        &&& self.params.wf()
        &&& fault(self.a.matrix, self.b.bytes, self.c_len, self.k) is None
    }

    /// Checks that matrices and an output of `c_len` results fit together.
    pub fn check(
        a: &BlockTransposed<MR>,
        b: ByteRows<'_>,
        c_len: usize,
        k: usize,
    ) -> (result: Result<(), DriverError>)
        requires
            a.wf(),
        ensures
            result == match fault(a, b, c_len, k) {
                Some(error) => Err::<(), DriverError>(error),
                None => Ok(()),
            },
    {
        if a.padded_ncols() / 2 != k || b.cols != k {
            return Err(DriverError::ContractionDimension);
        }
        if arithmetic::div_ceil_usize(c_len, MR) != a.blocks() {
            return Err(DriverError::OutputLength);
        }
        if k > MAX_K_PAIRS {
            return Err(DriverError::AccumulatorCapacity);
        }
        Ok(())
    }

    /// Prepare for a MaxSim on `a` and `b` with `c_len` results.
    pub fn new(
        a: PairView<'a, MR>,
        b: ByteRows<'a>,
        c_len: usize,
        k: usize,
        cache: Cache,
    ) -> (driver: Self)
        requires
            fault(a.matrix, b, c_len, k) is None,
            a.wf(),
            b.wf(),
            0 < NR <= MAX_NR,
            cache.l1 <= usize::MAX - MAX_NR,
        ensures
            driver.wf(),
            driver.a == a,
            driver.b.bytes == b,
            driver.c_len == c_len,
            driver.k == k,
            driver.params.a_panels_in_l2 == params::at_least_one(
                cache.l2 as int / (MR * (2 * k)),
            ),
            driver.params.b_cols_in_l1 == params::b_cols(
                cache,
                (MR * (2 * k)) as usize,
                k,
                NR,
            ),
    {
        let a_panel: usize = a.matrix.block_stride();
        proof {
            blocks::lemma_padded_cols(a.matrix.cols as int);
            params::lemma_b_cols(cache, a_panel, k, NR);
            assert(NR * k <= 64 * 561433) by (nonlinear_arith)
                requires
                    0 <= NR <= 64,
                    0 <= k <= 561433,
            ;
        }
        let chosen = Params::new(cache, a_panel, k, NR);
        Self::new_inner(a, b, c_len, k, chosen)
    }

    /// Prepare for a MaxSim with given blocking parameters.
    pub fn new_inner(
        a: PairView<'a, MR>,
        b: ByteRows<'a>,
        c_len: usize,
        k: usize,
        params: Params,
    ) -> (driver: Self)
        requires
            fault(a.matrix, b, c_len, k) is None,
            a.wf(),
            b.wf(),
            0 < NR <= MAX_NR,
            params.wf(),
        ensures
            driver.wf(),
            driver == (Driver::<MR, NR> {
                a,
                b: NibbleColumns { bytes: b },
                c_len,
                k,
                params,
            }),
    {
        Driver { a, b: NibbleColumns { bytes: b }, c_len, k, params }
    }

    /// Computes the results. `c` does not need any specific initial value.
    pub fn drive(&self, c: &mut [u32])
        requires
            self.wf(),
            old(c)@.len() == self.c_len,
        ensures
            final(c)@.len() == old(c)@.len(),
            tiles::is_maxsim(final(c)@, self.a.matrix, &self.b),
    {
        proof {
            blocks::lemma_padded_cols(self.a.matrix.cols as int);
            let most = <NibbleColumns<'_> as tiles::PairColumns>::largest();
            let pairs = tiles::PairColumns::pairs(&self.b);
            assert(510 * most * pairs <= 4294967295) by (nonlinear_arith)
                requires
                    most == 15,
                    pairs <= 561433,
            ;
        }
        tiles::drive(self.a.matrix, &self.b, self.params, NR, c);
    }
}

/// A result is the largest of the dot products of its row with the columns of B, which are the
/// rows of `b`: that of the column given is no larger, and the column that comes back has it.
/// A dot product is the sum of the products of the elements of the row and of the column,
/// whose elements stand two to a byte, low nibble first.
pub proof fn lemma_result_is_largest_product<const MR: usize>(
    result: Seq<u32>,
    a: &BlockTransposed<MR>,
    values: Seq<u8>,
    b: NibbleColumns<'_>,
    row: int,
    col: int,
) -> (best: int)
    requires
        tiles::fits(a, &b),
        a.holds(values, a.rows as int, a.cols as int),
        tiles::is_maxsim(result, a, &b),
        0 <= row < a.rows,
        row < result.len(),
        0 <= col < b.bytes.rows,
    ensures
        Seq::new(
            a.cols as nat,
            |at: int| values[row * a.cols + at] * (if at % 2 == 0 {
                    b.bytes.data@[col * b.bytes.cols + at / 2] as int % 16
                } else {
                    b.bytes.data@[col * b.bytes.cols + at / 2] as int / 16
                }),
        ).fold_left(0int, |sum: int, product: int| sum + product) <= result[row],
        0 <= best < b.bytes.rows,
        Seq::new(
            a.cols as nat,
            |at: int| values[row * a.cols + at] * (if at % 2 == 0 {
                    b.bytes.data@[best * b.bytes.cols + at / 2] as int % 16
                } else {
                    b.bytes.data@[best * b.bytes.cols + at / 2] as int / 16
                }),
        ).fold_left(0int, |sum: int, product: int| sum + product) == result[row],
{
    tiles::lemma_best_is_maximum(a, row, &b, b.bytes.rows as nat);
    assert(result[row] == tiles::best(a, row, &b, b.bytes.rows as nat));
    let best = choose|best: int|
        0 <= best < b.bytes.rows && #[trigger] tiles::dot(a, row, &b, best) == tiles::best(
            a,
            row,
            &b,
            b.bytes.rows as nat,
        );
    lemma_dot_is_sum(a, values, b, row, col);
    lemma_dot_is_sum(a, values, b, row, best);
    best
}

/// A dot product is the sum of the products of the elements.
proof fn lemma_dot_is_sum<const MR: usize>(
    a: &BlockTransposed<MR>,
    values: Seq<u8>,
    b: NibbleColumns<'_>,
    row: int,
    col: int,
)
    requires
        tiles::fits(a, &b),
        a.holds(values, a.rows as int, a.cols as int),
        0 <= row < a.rows,
    ensures
        tiles::dot(a, row, &b, col) == Seq::new(
            a.cols as nat,
            |at: int| values[row * a.cols + at] * (if at % 2 == 0 {
                    b.bytes.data@[col * b.bytes.cols + at / 2] as int % 16
                } else {
                    b.bytes.data@[col * b.bytes.cols + at / 2] as int / 16
                }),
        ).fold_left(0int, |sum: int, product: int| sum + product),
{
    let terms = Seq::new(
        a.cols as nat,
        |at: int| values[row * a.cols + at] * (if at % 2 == 0 {
                    b.bytes.data@[col * b.bytes.cols + at / 2] as int % 16
                } else {
                    b.bytes.data@[col * b.bytes.cols + at / 2] as int / 16
                }),
    );
    tiles::lemma_dot_of_rows(a, values, row, &b, col);
    blocks::lemma_padded_cols(a.cols as int);
    assert forall|at: int| 0 <= at < terms.len() implies #[trigger] terms[at] == values[row * a.cols
        + at] * tiles::column_element(&b, col, at) by {
        assert(2 * (at / 2) + at % 2 == at);
    }
    tiles::lemma_row_dot_is_sum(values, a.cols as int, row, &b, col, a.cols as nat, terms);
    assert(terms.take(a.cols as int) =~= terms);
}

/// Matrices are accepted if the number of pairs is half the number of columns of A, rounded up,
/// and the number of bytes in a row of `b`, if the results take up exactly the blocks of A, and
/// if every dot product of that many pairs fits a `u32`.
pub proof fn lemma_driver_accepts<const MR: usize>(
    a: &BlockTransposed<MR>,
    b: ByteRows<'_>,
    c_len: usize,
    k: usize,
)
    requires
        a.wf(),
    ensures
        fault(a, b, c_len, k) is None <==> {
            &&& 2 * k == a.cols + a.cols % 2
            &&& b.cols == k
            &&& (c_len + MR - 1) / MR as int == (a.rows + MR - 1) / MR as int
            &&& 7650 * k <= u32::MAX
        },
{
    blocks::lemma_padded_cols(a.cols as int);
    arithmetic::lemma_div_ceil_adds(c_len as int, MR as int);
    arithmetic::lemma_div_ceil_adds(a.rows as int, MR as int);
    assert(MAX_K_PAIRS == 561433);
}

/// A matrix with an odd number of columns cannot be read as pairs where the column that
/// completes the last pair holds anything; one with an even number always can.
pub proof fn lemma_pairs_need_zeros<const MR: usize>(
    a: &BlockTransposed<MR>,
    block: int,
    lane: int,
)
    requires
        a.wf(),
        0 <= block < a.block_count(),
        0 <= lane < MR,
    ensures
        a.cols % 2 == 0 ==> padding_is_zero(a),
        a.cols % 2 == 1 && a.element(block, lane, a.cols as int) != 0 ==> !padding_is_zero(a),
{
    blocks::lemma_padded_cols(a.cols as int);
}

} // verus!
