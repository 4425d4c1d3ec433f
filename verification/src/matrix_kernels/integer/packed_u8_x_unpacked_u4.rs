//! Raw dot products for a packed `u8` query matrix and unpacked `u4` document matrix.
//!
//! The kernels stop at completed integer dot products. Quantization correction and
//! reduction belong in a later layer, which needs its metadata after the integer
//! contraction completes.
//!
//! "Packed" and "unpacked" describe the matrix layouts. The unpacked document matrix is
//! row-major; its `u4` elements are encoded two per byte.
use crate::arithmetic;
use crate::matrix_kernels::blocks;
use crate::matrix_kernels::blocks::BlockTransposed;
use vstd::prelude::*;

verus! {

/// Rows in a query block of the blocked kernel.
pub const V3_MR: usize = 16;

/// Most documents that the blocked kernel takes at a time.
pub const V3_NR: usize = 4;

/// Most that the product of a `u8` and a `u4` can be.
pub const MAX_PRODUCT: usize = 3825;

/// The largest dimension whose dot products fit an `i32`.
pub const MAX_DIM: usize = 2147483647 / MAX_PRODUCT;

/// Errors returned when the logical matrix dimensions do not match their backing storage.
#[derive(Debug, Clone, Copy, PartialEq, Eq, Structural)]
pub enum ShapeError {
    EmptyDimension,
    DimensionMismatch { query: usize, document: usize },
    DocumentStorage { expected: usize, actual: usize },
    OutputStorage { expected: usize, actual: usize },
    DimensionTooLarge { dimension: usize, maximum: usize },
    SizeOverflow,
}

/// A row-major matrix whose logical `u4` values are densely packed, low nibble first.
#[derive(Debug, Clone, Copy)]
pub struct UnpackedU4Rows<'a> {
    pub data: &'a [u8],
    pub rows: usize,
    pub dim: usize,
    pub row_bytes: usize,
}

/// One of the two values in a byte, low nibble first.
pub open spec fn nibble(byte: u8, col: int) -> int {
    if col % 2 == 0 {
        byte as int % 16
    } else {
        byte as int / 16
    }
}

/// The low nibble of a byte.
fn low_nibble(byte: u8) -> (value: u8)
    ensures
        value == byte as int % 16,
        value <= 15,
{
    assert(byte & 0x0f == byte % 16 && byte & 0x0f <= 15) by (bit_vector);
    byte & 0x0f
}

/// The high nibble of a byte.
fn high_nibble(byte: u8) -> (value: u8)
    ensures
        value == byte as int / 16,
        value <= 15,
{
    assert(byte >> 4 == byte / 16 && byte >> 4 <= 15) by (bit_vector);
    byte >> 4
}

impl<'a> UnpackedU4Rows<'a> {
    /// The storage holds all rows.
    pub open spec fn wf(&self) -> bool {
        &&& self.dim > 0
        &&& self.row_bytes == arithmetic::div_ceil(self.dim as int, 2)
        &&& self.data@.len() == self.rows * self.row_bytes
    }

    /// An element of the matrix.
    pub open spec fn spec_value(&self, row: int, col: int) -> int {
        nibble(self.data@[row * self.row_bytes + col / 2], col)
    }

    pub fn new(data: &'a [u8], rows: usize, dim: usize) -> (result: Result<Self, ShapeError>)
        ensures
            ({
                let row_bytes = arithmetic::div_ceil(dim as int, 2);
                result == if dim == 0 {
                    Err::<Self, ShapeError>(ShapeError::EmptyDimension)
                } else if rows * row_bytes > usize::MAX {
                    Err(ShapeError::SizeOverflow)
                } else if data@.len() != rows * row_bytes {
                    Err(
                        ShapeError::DocumentStorage {
                            expected: (rows * row_bytes) as usize,
                            actual: data@.len() as usize,
                        },
                    )
                } else {
                    Ok(UnpackedU4Rows { data, rows, dim, row_bytes: row_bytes as usize })
                }
            }),
            result is Ok ==> result->Ok_0.wf(),
    {
        if dim == 0 {
            return Err(ShapeError::EmptyDimension);
        }
        let row_bytes: usize = arithmetic::div_ceil_usize(dim, 2);
        proof {
            assert(0 <= rows * row_bytes) by (nonlinear_arith)
                requires
                    rows >= 0,
                    row_bytes >= 0,
            ;
        }
        let Some(expected) = rows.checked_mul(row_bytes) else {
            return Err(ShapeError::SizeOverflow);
        };
        if data.len() != expected {
            return Err(ShapeError::DocumentStorage { expected, actual: data.len() });
        }
        Ok(UnpackedU4Rows { data, rows, dim, row_bytes })
    }

    /// The byte that holds two elements of a row.
    fn pair(self, row: usize, index: usize) -> (byte: u8)
        requires
            self.wf(),
            row < self.rows,
            index < self.row_bytes,
        ensures
            byte == self.data@[row * self.row_bytes + index],
    {
        proof {
            let r = row as int;
            let n = self.rows as int;
            let w = self.row_bytes as int;
            assert(0 <= r * w && r * w + w <= n * w) by (nonlinear_arith)
                requires
                    0 <= r < n,
                    0 <= w,
            ;
            assert(self.data.len() == self.data@.len());
        }
        self.data[row * self.row_bytes + index]
    }

    pub fn value(self, row: usize, col: usize) -> (value: u8)
        requires
            self.wf(),
            row < self.rows,
            col < self.dim,
        ensures
            value == self.spec_value(row as int, col as int),
            value <= 15,
    {
        let byte: u8 = self.pair(row, col / 2);
        if col % 2 == 0 {
            low_nibble(byte)
        } else {
            high_nibble(byte)
        }
    }
}

/// The dot product of the first `count` elements of a query row, given by its block and
/// its lane, and a document row.
pub open spec fn lane_dot<const MR: usize>(
    query: &BlockTransposed<MR>,
    block: int,
    lane: int,
    docs: UnpackedU4Rows<'_>,
    doc: int,
    count: nat,
) -> int
    decreases count,
{
    if count == 0 {
        0
    } else {
        lane_dot(query, block, lane, docs, doc, (count - 1) as nat) + query.element(
            block,
            lane,
            count - 1,
        ) * docs.spec_value(doc, count - 1)
    }
}

/// The dot product of a query row and a document row.
pub open spec fn dot<const MR: usize>(
    query: &BlockTransposed<MR>,
    row: int,
    docs: UnpackedU4Rows<'_>,
    doc: int,
) -> int {
    lane_dot(query, row / MR as int, row % MR as int, docs, doc, docs.dim as nat)
}

/// The cell of a row-major matrix.
pub open spec fn cell(output: Seq<i32>, width: int, row: int, col: int) -> i32 {
    output[row * width + col]
}

/// The output holds the dot products of all query rows and all document rows.
pub open spec fn holds_products<const MR: usize>(
    output: Seq<i32>,
    query: &BlockTransposed<MR>,
    docs: UnpackedU4Rows<'_>,
) -> bool {
    forall|row: int, doc: int|
        0 <= row < query.rows && 0 <= doc < docs.rows ==> #[trigger] cell(
            output,
            docs.rows as int,
            row,
            doc,
        ) == dot(query, row, docs, doc)
}

/// The dot product of the rows of two matrices of integers.
pub open spec fn row_dot(
    query: Seq<u8>,
    docs: UnpackedU4Rows<'_>,
    row: int,
    doc: int,
    cols: int,
    count: nat,
) -> int
    decreases count,
{
    if count == 0 {
        0
    } else {
        row_dot(query, docs, row, doc, cols, (count - 1) as nat) + query[row * cols + (count - 1)]
            * docs.spec_value(doc, count - 1)
    }
}

/// For a query matrix made from its rows, the products are those of the rows: neither
/// the blocks nor what was added to fill them up makes a difference.
pub proof fn lemma_dot_of_rows<const MR: usize>(
    query: &BlockTransposed<MR>,
    values: Seq<u8>,
    docs: UnpackedU4Rows<'_>,
    row: int,
    doc: int,
)
    requires
        query.wf(),
        query.holds(values, query.rows as int, query.cols as int),
        docs.dim == query.cols,
        0 <= row < query.rows,
    ensures
        dot(query, row, docs, doc) == row_dot(
            values,
            docs,
            row,
            doc,
            query.cols as int,
            docs.dim as nat,
        ),
{
    lemma_lane_dot_of_rows(query, values, docs, row, doc, docs.dim as nat);
}

proof fn lemma_lane_dot_of_rows<const MR: usize>(
    query: &BlockTransposed<MR>,
    values: Seq<u8>,
    docs: UnpackedU4Rows<'_>,
    row: int,
    doc: int,
    count: nat,
)
    requires
        query.wf(),
        query.holds(values, query.rows as int, query.cols as int),
        docs.dim == query.cols,
        0 <= row < query.rows,
        count <= docs.dim,
    ensures
        lane_dot(query, row / MR as int, row % MR as int, docs, doc, count) == row_dot(
            values,
            docs,
            row,
            doc,
            query.cols as int,
            count,
        ),
    decreases count,
{
    if count > 0 {
        lemma_lane_dot_of_rows(query, values, docs, row, doc, (count - 1) as nat);
        arithmetic::lemma_div_ceil(query.rows as int, MR as int);
        blocks::lemma_padded_cols(query.cols as int);
        assert(query.value(row, count - 1) == blocks::source(
            values,
            query.rows as int,
            query.cols as int,
            row,
            count - 1,
        ));
    }
}

/// Two matrices have one matrix of products: the scalar and the blocked kernel agree.
pub proof fn lemma_products_are_unique<const MR: usize>(
    left: Seq<i32>,
    right: Seq<i32>,
    query: &BlockTransposed<MR>,
    docs: UnpackedU4Rows<'_>,
)
    requires
        left.len() == query.rows * docs.rows,
        right.len() == query.rows * docs.rows,
        holds_products(left, query, docs),
        holds_products(right, query, docs),
    ensures
        left == right,
{
    let width = docs.rows as int;
    assert forall|at: int| 0 <= at < left.len() implies left[at] == right[at] by {
        assert(width > 0) by (nonlinear_arith)
            requires
                at < query.rows * width,
                0 <= at,
                0 <= width,
        ;
        blocks::lemma_row_in_block(at, query.rows as int, width);
        let row = at / width;
        let doc = at % width;
        assert(cell(left, width, row, doc) == dot(query, row, docs, doc));
        assert(cell(right, width, row, doc) == dot(query, row, docs, doc));
    }
    assert(left =~= right);
}

/// A partial dot product is at most as many of the largest product as it has terms.
proof fn lemma_lane_dot_bound<const MR: usize>(
    query: &BlockTransposed<MR>,
    block: int,
    lane: int,
    docs: UnpackedU4Rows<'_>,
    doc: int,
    count: nat,
)
    ensures
        0 <= lane_dot(query, block, lane, docs, doc, count) <= MAX_PRODUCT * count,
    decreases count,
{
    if count > 0 {
        lemma_lane_dot_bound(query, block, lane, docs, doc, (count - 1) as nat);
        let a = query.element(block, lane, count - 1) as int;
        let b = docs.spec_value(doc, count - 1);
        assert(0 <= a * b <= 3825) by (nonlinear_arith)
            requires
                0 <= a <= 255,
                0 <= b <= 15,
        ;
    }
}

/// Why matrices do not fit together.
pub open spec fn shape_fault<const MR: usize>(
    query: &BlockTransposed<MR>,
    docs: UnpackedU4Rows<'_>,
    output_len: nat,
) -> Option<ShapeError> {
    let expected = query.rows * docs.rows;
    if query.cols != docs.dim {
        Some(ShapeError::DimensionMismatch { query: query.cols, document: docs.dim })
    } else if query.cols > MAX_DIM {
        Some(ShapeError::DimensionTooLarge { dimension: query.cols, maximum: MAX_DIM })
    } else if expected > usize::MAX {
        Some(ShapeError::SizeOverflow)
    } else if output_len != expected {
        Some(
            ShapeError::OutputStorage {
                expected: expected as usize,
                actual: output_len as usize,
            },
        )
    } else {
        None
    }
}

/// Checks that the matrices fit together.
pub fn validate<const MR: usize>(
    query: &BlockTransposed<MR>,
    docs: UnpackedU4Rows<'_>,
    output: &[i32],
) -> (result: Result<(), ShapeError>)
    ensures
        result == match shape_fault(query, docs, output@.len()) {
            Some(error) => Err::<(), ShapeError>(error),
            None => Ok(()),
        },
{
    if query.ncols() != docs.dim {
        return Err(ShapeError::DimensionMismatch { query: query.ncols(), document: docs.dim });
    }
    if query.ncols() > MAX_DIM {
        return Err(
            ShapeError::DimensionTooLarge { dimension: query.ncols(), maximum: MAX_DIM },
        );
    }
    proof {
        assert(0 <= query.rows * docs.rows) by (nonlinear_arith)
            requires
                query.rows >= 0,
                docs.rows >= 0,
        ;
    }
    let Some(expected) = query.nrows().checked_mul(docs.rows) else {
        return Err(ShapeError::SizeOverflow);
    };
    if output.len() != expected {
        return Err(ShapeError::OutputStorage { expected, actual: output.len() });
    }
    Ok(())
}

/// Stores a value in a cell of a row-major matrix.
fn store(output: &mut [i32], width: usize, row: usize, col: usize, value: i32)
    requires
        col < width,
        row * width + col < old(output)@.len(),
    ensures
        final(output)@.len() == old(output)@.len(),
        forall|r: int, c: int|
            0 <= c < width && 0 <= r && r * width + c < old(output)@.len() ==> #[trigger] cell(
                final(output)@,
                width as int,
                r,
                c,
            ) == if r == row && c == col {
                value
            } else {
                cell(old(output)@, width as int, r, c)
            },
{
    let ghost before = output@;
    assert(output.len() == output@.len());
    proof {
        assert(0 <= row * width) by (nonlinear_arith)
            requires
                row >= 0,
                width >= 0,
        ;
    }
    let place: usize = row * width + col;
    output[place] = value;
    proof {
        assert forall|r: int, c: int|
            0 <= c < width && 0 <= r && r * width + c < before.len() implies #[trigger] cell(
            output@,
            width as int,
            r,
            c,
        ) == if r == row && c == col {
            value
        } else {
            cell(before, width as int, r, c)
        } by {
            arithmetic::lemma_quotient_and_rest(r, c, width as int);
            arithmetic::lemma_quotient_and_rest(row as int, col as int, width as int);
            assert(0 <= r * width) by (nonlinear_arith)
                requires
                    r >= 0,
                    width >= 0,
            ;
        }
    }
}

/// A cell of a matrix lies in its storage.
proof fn lemma_cell_in_range(rows: int, width: int, row: int, col: int)
    requires
        0 <= row < rows,
        0 <= col < width,
    ensures
        0 <= row * width,
        row * width + col < rows * width,
{
    assert(0 <= row * width && row * width + width <= rows * width) by (nonlinear_arith)
        requires
            0 <= row < rows,
            0 <= width,
    ;
}

/// Computes one dot product.
fn scalar_dot<const MR: usize>(
    query: &BlockTransposed<MR>,
    row: usize,
    docs: UnpackedU4Rows<'_>,
    doc: usize,
) -> (sum: i32)
    requires
        query.wf(),
        docs.wf(),
        query.cols == docs.dim,
        query.cols <= MAX_DIM,
        row < query.rows,
        doc < docs.rows,
    ensures
        sum == dot(query, row as int, docs, doc as int),
{
    let block: usize = row / MR;
    let lane: usize = row % MR;
    proof {
        arithmetic::lemma_div_ceil(query.rows as int, MR as int);
        blocks::lemma_row_in_block(row as int, query.block_count(), MR as int);
        blocks::lemma_padded_cols(query.cols as int);
    }
    let mut sum: i32 = 0;
    let mut k: usize = 0;
    while k < docs.dim
        invariant
            k <= docs.dim,
            query.wf(),
            docs.wf(),
            query.cols == docs.dim,
            docs.dim <= MAX_DIM,
            docs.dim <= query.stored_cols(),
            block < query.block_count(),
            lane < MR,
            doc < docs.rows,
            sum == lane_dot(query, block as int, lane as int, docs, doc as int, k as nat),
        decreases docs.dim - k,
    {
        let a: i32 = query.at(block, lane, k) as i32;
        let b: i32 = docs.value(doc, k) as i32;
        proof {
            assert(0 <= a * b <= 3825) by (nonlinear_arith)
                requires
                    0 <= a <= 255,
                    0 <= b <= 15,
            ;
            lemma_lane_dot_bound(query, block as int, lane as int, docs, doc as int, k as nat);
        }
        sum = sum + a * b;
        k += 1;
    }
    sum
}

/// Compute raw integer dot products with a scalar implementation.
///
/// Output is row-major with shape `query.nrows() x docs.rows`.
pub fn compute_scalar<const MR: usize>(
    query: &BlockTransposed<MR>,
    docs: UnpackedU4Rows<'_>,
    output: &mut [i32],
) -> (result: Result<(), ShapeError>)
    requires
        query.wf(),
        docs.wf(),
    ensures
        match shape_fault(query, docs, old(output)@.len()) {
            Some(error) => result == Err::<(), ShapeError>(error) && final(output)@ == old(
                output,
            )@,
            None => {
                &&& result == Ok::<(), ShapeError>(())
                &&& final(output)@.len() == old(output)@.len()
                &&& holds_products(final(output)@, query, docs)
            },
        },
{
    match validate(query, docs, output) {
        Ok(()) => {},
        Err(error) => {
            return Err(error);
        },
    }
    let rows: usize = query.nrows();
    let mut row: usize = 0;
    while row < rows
        invariant
            row <= rows,
            rows == query.rows,
            query.wf(),
            docs.wf(),
            query.cols == docs.dim,
            query.cols <= MAX_DIM,
            output@.len() == rows * docs.rows,
            forall|r: int, d: int|
                0 <= r < row && 0 <= d < docs.rows ==> #[trigger] cell(
                    output@,
                    docs.rows as int,
                    r,
                    d,
                ) == dot(query, r, docs, d),
        decreases rows - row,
    {
        let mut doc: usize = 0;
        while doc < docs.rows
            invariant
                doc <= docs.rows,
                row < rows,
                rows == query.rows,
                query.wf(),
                docs.wf(),
                query.cols == docs.dim,
                query.cols <= MAX_DIM,
                output@.len() == rows * docs.rows,
                forall|r: int, d: int|
                    0 <= r <= row && 0 <= d < docs.rows && (r < row || d < doc) ==> #[trigger] cell(
                        output@,
                        docs.rows as int,
                        r,
                        d,
                    ) == dot(query, r, docs, d),
            decreases docs.rows - doc,
        {
            let sum: i32 = scalar_dot(query, row, docs, doc);
            let ghost before = output@;
            proof {
                lemma_cell_in_range(rows as int, docs.rows as int, row as int, doc as int);
            }
            store(output, docs.rows, row, doc, sum);
            proof {
                assert forall|r: int, d: int|
                    0 <= r <= row && 0 <= d < docs.rows && (r < row || d
                        < doc + 1) implies #[trigger] cell(output@, docs.rows as int, r, d) == dot(
                    query,
                    r,
                    docs,
                    d,
                ) by {
                    lemma_cell_in_range(rows as int, docs.rows as int, r, d);
                    if r < row || d < doc {
                        assert(cell(before, docs.rows as int, r, d) == dot(query, r, docs, d));
                    }
                }
            }
            doc += 1;
        }
        row += 1;
    }
    Ok(())
}

/// Computes the dot products of all rows of a query block and one document, two
/// dimensions at a time.
fn microkernel_v3(
    query: &BlockTransposed<V3_MR>,
    block: usize,
    docs: UnpackedU4Rows<'_>,
    doc: usize,
) -> (column: Vec<i32>)
    requires
        query.wf(),
        docs.wf(),
        query.cols == docs.dim,
        query.cols <= MAX_DIM,
        block < query.block_count(),
        doc < docs.rows,
    ensures
        column@.len() == V3_MR,
        forall|lane: int|
            0 <= lane < V3_MR ==> #[trigger] column@[lane] == lane_dot(
                query,
                block as int,
                lane,
                docs,
                doc as int,
                docs.dim as nat,
            ),
{
    proof {
        blocks::lemma_padded_cols(query.cols as int);
    }
    let mut column: Vec<i32> = vec![0; V3_MR];
    let pairs: usize = docs.row_bytes;
    let odd: bool = docs.dim % 2 != 0;
    let mut index: usize = 0;
    while index < pairs
        invariant
            index <= pairs,
            pairs == docs.row_bytes,
            odd == (docs.dim % 2 != 0),
            query.wf(),
            docs.wf(),
            query.cols == docs.dim,
            docs.dim <= MAX_DIM,
            query.stored_cols() == 2 * pairs,
            block < query.block_count(),
            doc < docs.rows,
            column@.len() == V3_MR,
            forall|lane: int|
                0 <= lane < V3_MR ==> #[trigger] column@[lane] == lane_dot(
                    query,
                    block as int,
                    lane,
                    docs,
                    doc as int,
                    terms(docs.dim as int, index as int),
                ),
        decreases pairs - index,
    {
        let byte: u8 = docs.pair(doc, index);
        let low: i32 = low_nibble(byte) as i32;
        let high: i32 = if index + 1 == pairs && odd {
            0
        } else {
            high_nibble(byte) as i32
        };
        add_pair(query, block, docs, doc, index, low, high, &mut column);
        index += 1;
    }
    column
}

/// The number of dimensions in the first `pairs` pairs.
pub open spec fn terms(dim: int, pairs: int) -> nat {
    if 2 * pairs <= dim {
        (2 * pairs) as nat
    } else {
        dim as nat
    }
}

/// Adds to each lane the products of two dimensions.
fn add_pair(
    query: &BlockTransposed<V3_MR>,
    block: usize,
    docs: UnpackedU4Rows<'_>,
    doc: usize,
    index: usize,
    low: i32,
    high: i32,
    column: &mut Vec<i32>,
)
    requires
        query.wf(),
        docs.wf(),
        query.cols == docs.dim,
        docs.dim <= MAX_DIM,
        query.stored_cols() == 2 * docs.row_bytes,
        block < query.block_count(),
        doc < docs.rows,
        index < docs.row_bytes,
        low == docs.spec_value(doc as int, 2 * index as int),
        0 <= high <= 15,
        2 * index + 1 < docs.dim ==> high == docs.spec_value(doc as int, 2 * index + 1),
        2 * index + 1 >= docs.dim ==> high == 0,
        old(column)@.len() == V3_MR,
        forall|lane: int|
            0 <= lane < V3_MR ==> #[trigger] old(column)@[lane] == lane_dot(
                query,
                block as int,
                lane,
                docs,
                doc as int,
                terms(docs.dim as int, index as int),
            ),
    ensures
        final(column)@.len() == V3_MR,
        forall|lane: int|
            0 <= lane < V3_MR ==> #[trigger] final(column)@[lane] == lane_dot(
                query,
                block as int,
                lane,
                docs,
                doc as int,
                terms(docs.dim as int, index + 1),
            ),
{
    let ghost before = column@;
    let mut lane: usize = 0;
    while lane < V3_MR
        invariant
            lane <= V3_MR,
            query.wf(),
            docs.wf(),
            query.cols == docs.dim,
            docs.dim <= MAX_DIM,
            query.stored_cols() == 2 * docs.row_bytes,
            block < query.block_count(),
            doc < docs.rows,
            index < docs.row_bytes,
            low == docs.spec_value(doc as int, 2 * index as int),
            0 <= high <= 15,
            2 * index + 1 < docs.dim ==> high == docs.spec_value(doc as int, 2 * index + 1),
            2 * index + 1 >= docs.dim ==> high == 0,
            before.len() == V3_MR,
            column@.len() == V3_MR,
            forall|i: int|
                0 <= i < V3_MR ==> #[trigger] before[i] == lane_dot(
                    query,
                    block as int,
                    i,
                    docs,
                    doc as int,
                    terms(docs.dim as int, index as int),
                ),
            forall|i: int| lane <= i < V3_MR ==> #[trigger] column@[i] == before[i],
            forall|i: int|
                0 <= i < lane ==> #[trigger] column@[i] == lane_dot(
                    query,
                    block as int,
                    i,
                    docs,
                    doc as int,
                    terms(docs.dim as int, index + 1),
                ),
        decreases V3_MR - lane,
    {
        let a0: i32 = query.at(block, lane, 2 * index) as i32;
        let a1: i32 = query.at(block, lane, 2 * index + 1) as i32;
        let ghost start = terms(docs.dim as int, index as int);
        let ghost end = terms(docs.dim as int, index + 1);
        proof {
            assert(0 <= a0 * low <= 3825) by (nonlinear_arith)
                requires
                    0 <= a0 <= 255,
                    0 <= low <= 15,
            ;
            assert(0 <= a1 * high <= 3825) by (nonlinear_arith)
                requires
                    0 <= a1 <= 255,
                    0 <= high <= 15,
            ;
            assert(start == 2 * index);
            lemma_lane_dot_bound(query, block as int, lane as int, docs, doc as int, start);
            lemma_lane_dot_bound(query, block as int, lane as int, docs, doc as int, end);
            assert(lane_dot(query, block as int, lane as int, docs, doc as int, start + 1)
                == before[lane as int] + a0 * low);
            if 2 * index + 1 < docs.dim {
                assert(end == start + 2);
                assert(lane_dot(query, block as int, lane as int, docs, doc as int, end)
                    == before[lane as int] + a0 * low + a1 * high);
            } else {
                assert(end == start + 1);
                assert(a1 * high == 0) by (nonlinear_arith)
                    requires
                        high == 0,
                ;
            }
            assert(column@[lane as int] == before[lane as int]);
        }
        column[lane] = column[lane] + (a0 * low + a1 * high);
        lane += 1;
    }
}

/// A cell is done where its row lies before the current block, or in the block and its
/// document before the current one.
spec fn is_done(row: int, block_row: int, block_end: int, doc: int, cell_doc: int) -> bool {
    row < block_row || (row < block_end && cell_doc < doc)
}

/// Stores the column of a document.
fn store_column(
    query: &BlockTransposed<V3_MR>,
    block: usize,
    valid: usize,
    docs: UnpackedU4Rows<'_>,
    doc: usize,
    output: &mut [i32],
)
    requires
        query.wf(),
        docs.wf(),
        query.cols == docs.dim,
        query.cols <= MAX_DIM,
        block < query.block_count(),
        doc < docs.rows,
        valid <= V3_MR,
        block * V3_MR + valid <= query.rows,
        old(output)@.len() == query.rows * docs.rows,
        forall|r: int, d: int|
            0 <= r < query.rows && 0 <= d < docs.rows && is_done(
                r,
                block * V3_MR,
                block * V3_MR + valid,
                doc as int,
                d,
            ) ==> #[trigger] cell(old(output)@, docs.rows as int, r, d) == dot(query, r, docs, d),
    ensures
        final(output)@.len() == old(output)@.len(),
        forall|r: int, d: int|
            0 <= r < query.rows && 0 <= d < docs.rows && is_done(
                r,
                block * V3_MR,
                block * V3_MR + valid,
                doc + 1,
                d,
            ) ==> #[trigger] cell(final(output)@, docs.rows as int, r, d) == dot(query, r, docs, d),
{
    let column = microkernel_v3(query, block, docs, doc);
    let base: usize = block * V3_MR;
    let mut lane: usize = 0;
    while lane < valid
        invariant
            lane <= valid,
            valid <= V3_MR,
            base == block * V3_MR,
            base + valid <= query.rows,
            doc < docs.rows,
            column@.len() == V3_MR,
            forall|lane: int|
                0 <= lane < V3_MR ==> #[trigger] column@[lane] == lane_dot(
                    query,
                    block as int,
                    lane,
                    docs,
                    doc as int,
                    docs.dim as nat,
                ),
            output@.len() == query.rows * docs.rows,
            forall|r: int, d: int|
                0 <= r < query.rows && 0 <= d < docs.rows && (is_done(
                    r,
                    base as int,
                    base + valid,
                    doc as int,
                    d,
                ) || (d == doc && base <= r < base + lane)) ==> #[trigger] cell(
                    output@,
                    docs.rows as int,
                    r,
                    d,
                ) == dot(query, r, docs, d),
        decreases valid - lane,
    {
        let ghost before = output@;
        proof {
            lemma_cell_in_range(query.rows as int, docs.rows as int, base + lane, doc as int);
            arithmetic::lemma_quotient_and_rest(block as int, lane as int, V3_MR as int);
        }
        store(output, docs.rows, base + lane, doc, column[lane]);
        proof {
            assert forall|r: int, d: int|
                0 <= r < query.rows && 0 <= d < docs.rows && (is_done(
                    r,
                    base as int,
                    base + valid,
                    doc as int,
                    d,
                ) || (d == doc && base <= r < base + lane + 1)) implies #[trigger] cell(
                output@,
                docs.rows as int,
                r,
                d,
            ) == dot(query, r, docs, d) by {
                lemma_cell_in_range(query.rows as int, docs.rows as int, r, d);
                if r != base + lane || d != doc {
                    assert(cell(before, docs.rows as int, r, d) == dot(query, r, docs, d));
                }
            }
        }
        lane += 1;
    }
}

/// Stores the columns of up to `V3_NR` documents.
fn compute_doc_block_v3(
    query: &BlockTransposed<V3_MR>,
    block: usize,
    valid: usize,
    docs: UnpackedU4Rows<'_>,
    doc_base: usize,
    width: usize,
    output: &mut [i32],
)
    requires
        query.wf(),
        docs.wf(),
        query.cols == docs.dim,
        query.cols <= MAX_DIM,
        block < query.block_count(),
        doc_base + width <= docs.rows,
        valid <= V3_MR,
        block * V3_MR + valid <= query.rows,
        old(output)@.len() == query.rows * docs.rows,
        forall|r: int, d: int|
            0 <= r < query.rows && 0 <= d < docs.rows && is_done(
                r,
                block * V3_MR,
                block * V3_MR + valid,
                doc_base as int,
                d,
            ) ==> #[trigger] cell(old(output)@, docs.rows as int, r, d) == dot(query, r, docs, d),
    ensures
        final(output)@.len() == old(output)@.len(),
        forall|r: int, d: int|
            0 <= r < query.rows && 0 <= d < docs.rows && is_done(
                r,
                block * V3_MR,
                block * V3_MR + valid,
                doc_base + width,
                d,
            ) ==> #[trigger] cell(final(output)@, docs.rows as int, r, d) == dot(query, r, docs, d),
{
    let mut offset: usize = 0;
    while offset < width
        invariant
            offset <= width,
            query.wf(),
            docs.wf(),
            query.cols == docs.dim,
            query.cols <= MAX_DIM,
            block < query.block_count(),
            doc_base + width <= docs.rows,
            valid <= V3_MR,
            block * V3_MR + valid <= query.rows,
            output@.len() == query.rows * docs.rows,
            forall|r: int, d: int|
                0 <= r < query.rows && 0 <= d < docs.rows && is_done(
                    r,
                    block * V3_MR,
                    block * V3_MR + valid,
                    doc_base + offset,
                    d,
                ) ==> #[trigger] cell(output@, docs.rows as int, r, d) == dot(query, r, docs, d),
        decreases width - offset,
    {
        store_column(query, block, valid, docs, doc_base + offset, output);
        offset += 1;
    }
}

/// Compute raw integer dot products block by block: 16 query rows and up to four
/// documents at a time.
///
/// Output is row-major with shape `query.nrows() x docs.rows`.
pub fn compute_v3(
    query: &BlockTransposed<V3_MR>,
    docs: UnpackedU4Rows<'_>,
    output: &mut [i32],
) -> (result: Result<(), ShapeError>)
    requires
        query.wf(),
        docs.wf(),
    ensures
        match shape_fault(query, docs, old(output)@.len()) {
            Some(error) => result == Err::<(), ShapeError>(error) && final(output)@ == old(
                output,
            )@,
            None => {
                &&& result == Ok::<(), ShapeError>(())
                &&& final(output)@.len() == old(output)@.len()
                &&& holds_products(final(output)@, query, docs)
            },
        },
{
    match validate(query, docs, output) {
        Ok(()) => {},
        Err(error) => {
            return Err(error);
        },
    }
    let rows: usize = query.nrows();
    let query_blocks: usize = query.blocks();
    proof {
        arithmetic::lemma_div_ceil(query.rows as int, V3_MR as int);
    }
    let mut block: usize = 0;
    while block < query_blocks
        invariant
            block <= query_blocks,
            query_blocks == query.block_count(),
            rows == query.rows,
            rows <= query_blocks * V3_MR < rows + V3_MR,
            query.wf(),
            docs.wf(),
            query.cols == docs.dim,
            query.cols <= MAX_DIM,
            output@.len() == rows * docs.rows,
            forall|r: int, d: int|
                0 <= r < rows && 0 <= d < docs.rows && r < block * V3_MR ==> #[trigger] cell(
                    output@,
                    docs.rows as int,
                    r,
                    d,
                ) == dot(query, r, docs, d),
        decreases query_blocks - block,
    {
        let base: usize = block * V3_MR;
        let valid: usize = if rows - base < V3_MR {
            rows - base
        } else {
            V3_MR
        };
        let mut doc_base: usize = 0;
        while doc_base < docs.rows
            invariant
                doc_base <= docs.rows,
                block < query_blocks,
                query_blocks == query.block_count(),
                rows == query.rows,
                query.wf(),
                docs.wf(),
                query.cols == docs.dim,
                query.cols <= MAX_DIM,
                valid <= V3_MR,
                block * V3_MR + valid <= rows,
                output@.len() == rows * docs.rows,
                forall|r: int, d: int|
                    0 <= r < rows && 0 <= d < docs.rows && is_done(
                        r,
                        block * V3_MR,
                        block * V3_MR + valid,
                        doc_base as int,
                        d,
                    ) ==> #[trigger] cell(output@, docs.rows as int, r, d) == dot(
                        query,
                        r,
                        docs,
                        d,
                    ),
            decreases docs.rows - doc_base,
        {
            let remaining: usize = docs.rows - doc_base;
            let width: usize = if remaining < V3_NR {
                remaining
            } else {
                V3_NR
            };
            compute_doc_block_v3(query, block, valid, docs, doc_base, width, output);
            doc_base += width;
        }
        block += 1;
    }
    Ok(())
}

/// A computed cell holds the dot product of a query row and a document row: the sum, over
/// all dimensions, of the products of their elements, a document's elements standing two to a
/// byte, low nibble first.
pub proof fn lemma_cell_is_sum_of_products<const MR: usize>(
    output: Seq<i32>,
    query: &BlockTransposed<MR>,
    values: Seq<u8>,
    docs: UnpackedU4Rows<'_>,
    row: int,
    doc: int,
)
    requires
        query.wf(),
        query.holds(values, query.rows as int, query.cols as int),
        docs.wf(),
        docs.dim == query.cols,
        holds_products(output, query, docs),
        0 <= row < query.rows,
        0 <= doc < docs.rows,
    ensures
        output[row * docs.rows + doc] == Seq::new(
            docs.dim as nat,
            |at: int|
                {
                    let byte = docs.data@[doc * ((docs.dim + 1) / 2) + at / 2] as int;
                    values[row * query.cols + at] * if at % 2 == 0 {
                        byte % 16
                    } else {
                        byte / 16
                    }
                },
        ).fold_left(0int, |sum: int, product: int| sum + product),
{
    let dim = docs.dim as int;
    let terms = Seq::new(
        docs.dim as nat,
        |at: int|
            {
                let byte = docs.data@[doc * ((docs.dim + 1) / 2) + at / 2] as int;
                values[row * query.cols + at] * if at % 2 == 0 {
                    byte % 16
                } else {
                    byte / 16
                }
            },
    );
    assert(cell(output, docs.rows as int, row, doc) == dot(query, row, docs, doc));
    lemma_dot_of_rows(query, values, docs, row, doc);
    arithmetic::lemma_div_ceil(dim, 2);
    assert(docs.row_bytes == (docs.dim + 1) / 2);
    assert forall|at: int| 0 <= at < dim implies #[trigger] terms[at] == values[row * query.cols
        + at] * docs.spec_value(doc, at) by {}
    lemma_row_dot_is_sum(values, docs, row, doc, query.cols as int, docs.dim as nat, terms);
    assert(terms.take(docs.dim as int) =~= terms);
}

/// A dot product of rows is the sum of its terms.
proof fn lemma_row_dot_is_sum(
    query: Seq<u8>,
    docs: UnpackedU4Rows<'_>,
    row: int,
    doc: int,
    cols: int,
    count: nat,
    terms: Seq<int>,
)
    requires
        count <= terms.len(),
        forall|at: int|
            0 <= at < terms.len() ==> #[trigger] terms[at] == query[row * cols + at]
                * docs.spec_value(doc, at),
    ensures
        row_dot(query, docs, row, doc, cols, count) == terms.take(count as int).fold_left(
            0int,
            |sum: int, product: int| sum + product,
        ),
    decreases count,
{
    if count > 0 {
        lemma_row_dot_is_sum(query, docs, row, doc, cols, (count - 1) as nat, terms);
        assert(terms.take(count as int).drop_last() =~= terms.take(count - 1));
        assert(terms[count - 1] == query[row * cols + (count - 1)] * docs.spec_value(
            doc,
            count - 1,
        ));
    }
}

/// Matrices are accepted if they have one dimension, every dot product of that many elements
/// fits an `i32`, and the output has a cell for every pair of rows.
pub proof fn lemma_shapes_accepted<const MR: usize>(
    query: &BlockTransposed<MR>,
    docs: UnpackedU4Rows<'_>,
    output_len: nat,
)
    requires
        output_len <= usize::MAX,
    ensures
        shape_fault(query, docs, output_len) is None <==> {
            &&& query.cols == docs.dim
            &&& 3825 * docs.dim <= i32::MAX
            &&& output_len == query.rows * docs.rows
        },
{
    assert(MAX_DIM == 561433);
}

} // verus!
