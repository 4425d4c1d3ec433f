//! The two layouts of matrices that the kernels read.
use crate::arithmetic;
use vstd::prelude::*;

verus! {

/// The next multiple of `step`.
pub open spec fn padded(value: int, step: int) -> int {
    arithmetic::div_ceil(value, step) * step
}

/// The number of stored columns is even and holds all columns.
pub proof fn lemma_padded_cols(cols: int)
    requires
        0 <= cols,
    ensures
        padded(cols, 2) == 2 * arithmetic::div_ceil(cols, 2),
        padded(cols, 2) % 2 == 0,
        cols <= padded(cols, 2) <= cols + 1,
        padded(cols, 2) == cols + cols % 2,
{
    arithmetic::lemma_div_ceil(cols, 2);
}

/// Where an element of a block-transposed matrix is stored.
///
/// A block holds `mr` rows. Within a block, the elements of two columns follow each
/// other row by row, then those of the next two columns.
pub open spec fn offset(mr: int, stored_cols: int, block: int, lane: int, col: int) -> int {
    block * (mr * stored_cols) + (col / 2) * (mr * 2) + lane * 2 + col % 2
}

/// What offset an element has in its block, and that blocks do not overlap.
pub proof fn lemma_offset(
    mr: int,
    stored_cols: int,
    blocks: int,
    block: int,
    lane: int,
    col: int,
)
    requires
        0 <= block < blocks,
        0 <= lane < mr,
        0 <= col < stored_cols,
        stored_cols % 2 == 0,
    ensures
        0 <= (col / 2) * (mr * 2) <= (col / 2) * (mr * 2) + lane * 2 + 1 < mr * stored_cols,
        0 <= block * (mr * stored_cols),
        0 <= offset(mr, stored_cols, block, lane, col) < blocks * (mr * stored_cols),
{
    let stride = mr * stored_cols;
    let pair = col / 2;
    let pairs = stored_cols / 2;
    assert(0 <= pair && pair + 1 <= pairs);
    assert(stride == pairs * (mr * 2)) by (nonlinear_arith)
        requires
            stride == mr * stored_cols,
            stored_cols == pairs * 2,
    ;
    assert(0 <= pair * (mr * 2) && pair * (mr * 2) + mr * 2 <= pairs * (mr * 2)) by (nonlinear_arith)
        requires
            0 <= pair,
            pair + 1 <= pairs,
            0 <= mr,
    ;
    assert(0 <= block * stride && block * stride + stride <= blocks * stride) by (nonlinear_arith)
        requires
            0 <= block,
            block + 1 <= blocks,
            0 <= stride,
    ;
}

/// Dividing an offset gives back the block, the lane and the column.
pub proof fn lemma_offset_decomposes(
    mr: int,
    stored_cols: int,
    blocks: int,
    block: int,
    lane: int,
    col: int,
)
    requires
        0 <= block < blocks,
        0 <= lane < mr,
        0 <= col < stored_cols,
        stored_cols % 2 == 0,
    ensures
        ({
            let place = offset(mr, stored_cols, block, lane, col);
            let within = place % (mr * stored_cols);
            &&& place / (mr * stored_cols) == block
            &&& (within / (mr * 2)) * 2 + within % 2 == col
            &&& (within % (mr * 2)) / 2 == lane
        }),
{
    let stride = mr * stored_cols;
    let pair = col / 2;
    let within = pair * (mr * 2) + (lane * 2 + col % 2);
    lemma_offset(mr, stored_cols, blocks, block, lane, col);
    arithmetic::lemma_quotient_and_rest(block, within, stride);
    arithmetic::lemma_quotient_and_rest(pair, lane * 2 + col % 2, mr * 2);
    let half = pair * mr;
    assert(pair * (mr * 2) == half * 2) by (nonlinear_arith)
        requires
            half == pair * mr,
    ;
    assert(within == (half + lane) * 2 + col % 2);
}

/// A matrix of bytes in blocks of `MR` rows, transposed within a block two columns at
/// a time. Rows are filled up to whole blocks and columns to an even number, with
/// zeros where the matrix was made from its rows.
pub struct BlockTransposed<const MR: usize> {
    pub data: Vec<u8>,
    pub rows: usize,
    pub cols: usize,
}

impl<const MR: usize> BlockTransposed<MR> {
    /// Number of stored columns.
    pub open spec fn stored_cols(&self) -> int {
        padded(self.cols as int, 2)
    }

    /// Number of blocks.
    pub open spec fn block_count(&self) -> int {
        arithmetic::div_ceil(self.rows as int, MR as int)
    }

    /// The storage holds all blocks, and there is something in them.
    pub open spec fn wf(&self) -> bool {
        &&& MR > 0
        &&& self.cols > 0
        &&& self.rows > 0
        &&& self.cols < usize::MAX
        &&& self.data@.len() == self.block_count() * (MR * self.stored_cols())
    }

    /// The stored element in a row of a block.
    pub open spec fn element(&self, block: int, lane: int, col: int) -> u8 {
        self.data@[offset(MR as int, self.stored_cols(), block, lane, col)]
    }

    /// An element of the matrix.
    pub open spec fn value(&self, row: int, col: int) -> u8 {
        self.element(row / MR as int, row % MR as int, col)
    }

    /// The matrix has these rows, and zeros in the columns that were added.
    pub open spec fn holds(&self, values: Seq<u8>, rows: int, cols: int) -> bool {
        &&& self.rows == rows
        &&& self.cols == cols
        &&& forall|row: int, col: int|
            0 <= row < self.block_count() * MR && 0 <= col < self.stored_cols()
                ==> #[trigger] self.value(row, col) == source(values, rows, cols, row, col)
    }

    /// Number of rows.
    pub fn nrows(&self) -> (count: usize)
        ensures
            count == self.rows,
    {
        self.rows
    }

    /// Number of columns.
    pub fn ncols(&self) -> (count: usize)
        ensures
            count == self.cols,
    {
        self.cols
    }

    /// Number of stored columns.
    pub fn padded_ncols(&self) -> (count: usize)
        requires
            self.cols < usize::MAX,
        ensures
            count == self.stored_cols(),
    {
        proof {
            lemma_padded_cols(self.cols as int);
        }
        self.cols + self.cols % 2
    }

    /// Number of blocks.
    pub fn blocks(&self) -> (count: usize)
        requires
            MR > 0,
        ensures
            count == self.block_count(),
    {
        arithmetic::div_ceil_usize(self.rows, MR)
    }

    /// Number of elements in a block.
    pub fn block_stride(&self) -> (count: usize)
        requires
            self.wf(),
        ensures
            count == MR * self.stored_cols(),
            0 < count <= self.data@.len(),
    {
        let stored: usize = self.padded_ncols();
        proof {
            lemma_padded_cols(self.cols as int);
            arithmetic::lemma_div_ceil(self.rows as int, MR as int);
            let blocks = self.block_count();
            let stride = MR * self.stored_cols();
            assert(0 < MR * stored) by (nonlinear_arith)
                requires
                    0 < MR,
                    0 < stored,
            ;
            assert(stride <= blocks * stride) by (nonlinear_arith)
                requires
                    1 <= blocks,
                    0 <= stride,
            ;
            assert(self.data.len() == self.data@.len());
        }
        MR * stored
    }

    /// Makes the matrix from its rows. There is none without rows or columns, or
    /// where the stored elements are more than memory can hold.
    pub fn from_rows(values: &[u8], rows: usize, cols: usize) -> (matrix: Option<Self>)
        requires
            MR > 0,
            values@.len() == rows * cols,
        ensures
            matrix is Some <==> (rows > 0 && cols > 0 && padded(rows as int, MR as int) * padded(
                cols as int,
                2,
            ) <= usize::MAX),
            matrix is Some ==> matrix->0.wf() && matrix->0.holds(
                values@,
                rows as int,
                cols as int,
            ),
    {
        let ghost stored_goal = padded(cols as int, 2);
        let ghost rows_goal = padded(rows as int, MR as int);
        proof {
            lemma_padded_cols(cols as int);
            arithmetic::lemma_div_ceil(rows as int, MR as int);
        }
        if rows == 0 || cols == 0 {
            return None;
        }
        let blocks: usize = arithmetic::div_ceil_usize(rows, MR);
        proof {
            lemma_sizes(blocks as int, MR as int, stored_goal);
        }
        let Some(stored) = cols.checked_add(cols % 2) else {
            return None;
        };
        let Some(stride) = MR.checked_mul(stored) else {
            return None;
        };
        let Some(total) = blocks.checked_mul(stride) else {
            return None;
        };
        proof {
            assert(stride >= 1) by (nonlinear_arith)
                requires
                    stride == MR * stored,
                    MR >= 1,
                    stored >= 1,
            ;
            assert(stride == MR * 2 * (stored / 2)) by (nonlinear_arith)
                requires
                    stride == MR * stored,
                    stored == 2 * (stored / 2),
            ;
            assert(MR * 2 <= MR * 2 * (stored / 2)) by (nonlinear_arith)
                requires
                    MR >= 0,
                    stored / 2 >= 1,
            ;
        }
        let mut data: Vec<u8> = Vec::new();
        let mut place: usize = 0;
        while place < total
            invariant
                place <= total,
                0 < MR,
                0 < cols,
                total == blocks * stride,
                stride == MR * stored,
                0 < stride,
                MR * 2 <= stride <= usize::MAX,
                stored == padded(cols as int, 2),
                stored % 2 == 0,
                blocks == arithmetic::div_ceil(rows as int, MR as int),
                values@.len() == rows * cols,
                data@.len() == place,
                forall|at: int|
                    0 <= at < place ==> #[trigger] data@[at] == stored_at(
                        values@,
                        rows as int,
                        cols as int,
                        MR as int,
                        stored as int,
                        at,
                    ),
            decreases total - place,
        {
            let block: usize = place / stride;
            let within: usize = place % stride;
            let pair: usize = within / (MR * 2);
            let lane: usize = (within % (MR * 2)) / 2;
            proof {
                lemma_place(place as int, blocks as int, MR as int, stored as int);
            }
            let row: usize = block * MR + lane;
            let col: usize = pair * 2 + within % 2;
            let element: u8 = if row < rows && col < cols {
                proof {
                    let r = row as int;
                    let n = rows as int;
                    let c = cols as int;
                    assert(0 <= r * c && r * c + c <= n * c) by (nonlinear_arith)
                        requires
                            0 <= r < n,
                            0 <= c,
                    ;
                    assert(values.len() == values@.len());
                }
                values[row * cols + col]
            } else {
                0
            };
            data.push(element);
            place += 1;
        }
        let matrix = BlockTransposed { data, rows, cols };
        proof {
            assert forall|row: int, col: int|
                0 <= row < matrix.block_count() * MR && 0 <= col
                    < matrix.stored_cols() implies #[trigger] matrix.value(row, col) == source(
                values@,
                rows as int,
                cols as int,
                row,
                col,
            ) by {
                let block = row / MR as int;
                let lane = row % MR as int;
                arithmetic::lemma_div_ceil(rows as int, MR as int);
                lemma_row_in_block(row, blocks as int, MR as int);
                lemma_offset(MR as int, stored as int, blocks as int, block, lane, col);
                lemma_offset_decomposes(MR as int, stored as int, blocks as int, block, lane, col);
                let place = offset(MR as int, stored as int, block, lane, col);
                assert(data@[place] == stored_at(
                    values@,
                    rows as int,
                    cols as int,
                    MR as int,
                    stored as int,
                    place,
                ));
            }
        }
        Some(matrix)
    }

    /// Reads an element.
    pub fn at(&self, block: usize, lane: usize, col: usize) -> (element: u8)
        requires
            self.wf(),
            block < self.block_count(),
            lane < MR,
            col < self.stored_cols(),
        ensures
            element == self.element(block as int, lane as int, col as int),
    {
        let stride: usize = self.block_stride();
        proof {
            lemma_padded_cols(self.cols as int);
            lemma_offset(
                MR as int,
                self.stored_cols(),
                self.block_count(),
                block as int,
                lane as int,
                col as int,
            );
            assert(self.data.len() == self.data@.len());
            let pair = (col / 2) as int;
            assert((col / 2) * (MR * 2) == pair * (MR * 2));
            assert(MR * 2 <= stride) by (nonlinear_arith)
                requires
                    stride == MR * self.stored_cols(),
                    self.stored_cols() >= 2,
                    MR >= 0,
            ;
        }
        self.data[block * stride + (col / 2) * (MR * 2) + lane * 2 + col % 2]
    }
}

/// What stands in a row and a column, with zeros around the matrix.
pub open spec fn source(values: Seq<u8>, rows: int, cols: int, row: int, col: int) -> u8 {
    if row < rows && col < cols {
        values[row * cols + col]
    } else {
        0
    }
}

/// What is stored at a place.
pub open spec fn stored_at(
    values: Seq<u8>,
    rows: int,
    cols: int,
    mr: int,
    stored_cols: int,
    place: int,
) -> u8 {
    let within = place % (mr * stored_cols);
    source(
        values,
        rows,
        cols,
        (place / (mr * stored_cols)) * mr + (within % (mr * 2)) / 2,
        (within / (mr * 2)) * 2 + within % 2,
    )
}

/// The sizes whose overflow makes the storage too large.
proof fn lemma_sizes(blocks: int, mr: int, stored: int)
    requires
        1 <= blocks,
        1 <= mr,
        1 <= stored,
    ensures
        stored <= mr * stored <= blocks * (mr * stored),
        blocks * (mr * stored) == (blocks * mr) * stored,
        0 <= mr * stored,
{
    assert(stored <= mr * stored) by (nonlinear_arith)
        requires
            1 <= mr,
            1 <= stored,
    ;
    assert(mr * stored <= blocks * (mr * stored)) by (nonlinear_arith)
        requires
            1 <= blocks,
            1 <= mr * stored,
    ;
    assert(blocks * (mr * stored) == (blocks * mr) * stored) by (nonlinear_arith);
}

/// The block, lane and column of a place are in range.
proof fn lemma_place(place: int, blocks: int, mr: int, stored: int)
    requires
        0 <= place < blocks * (mr * stored),
        0 < mr,
        0 < stored,
        stored % 2 == 0,
        blocks * (mr * stored) <= usize::MAX,
    ensures
        ({
            let stride = mr * stored;
            let block = place / stride;
            let within = place % stride;
            let lane = (within % (mr * 2)) / 2;
            &&& 0 <= block < blocks
            &&& 0 <= within < stride
            &&& 0 <= lane < mr
            &&& 0 <= block * mr
            &&& block * mr + lane < blocks * mr
            &&& 0 <= block * mr <= usize::MAX
            &&& blocks * mr <= usize::MAX
            &&& 0 <= within / (mr * 2)
            &&& (within / (mr * 2)) * 2 + within % 2 < stored
            &&& stored <= usize::MAX
        }),
{
    let stride = mr * stored;
    let block = place / stride;
    let within = place % stride;
    assert(0 < stride) by (nonlinear_arith)
        requires
            stride == mr * stored,
            0 < mr,
            0 < stored,
    ;
    assert(place == block * stride + within && 0 <= within < stride && 0 <= block) by (nonlinear_arith)
        requires
            block == place / stride,
            within == place % stride,
            0 <= place,
            0 < stride,
    ;
    assert(block < blocks) by (nonlinear_arith)
        requires
            block * stride <= place,
            place < blocks * stride,
            0 < stride,
    ;
    let pair = within / (mr * 2);
    let rest = within % (mr * 2);
    assert(within == pair * (mr * 2) + rest && 0 <= rest < mr * 2 && 0 <= pair) by (nonlinear_arith)
        requires
            pair == within / (mr * 2),
            rest == within % (mr * 2),
            0 <= within,
            0 < mr,
    ;
    let pairs = stored / 2;
    assert(stride == pairs * (mr * 2)) by (nonlinear_arith)
        requires
            stride == mr * stored,
            stored == pairs * 2,
    ;
    assert(pair < pairs) by (nonlinear_arith)
        requires
            pair * (mr * 2) <= within,
            within < pairs * (mr * 2),
            0 < mr,
    ;
    assert(0 <= block * mr && block * mr + mr <= blocks * mr) by (nonlinear_arith)
        requires
            0 <= block,
            block + 1 <= blocks,
            0 < mr,
    ;
    lemma_sizes(blocks, mr, stored);
    assert(blocks * mr <= (blocks * mr) * stored) by (nonlinear_arith)
        requires
            0 <= blocks * mr,
            1 <= stored,
    ;
    assert(stored <= blocks * (mr * stored));
}

/// The block and lane of a row are in range.
pub proof fn lemma_row_in_block(row: int, blocks: int, mr: int)
    requires
        0 <= row < blocks * mr,
        0 < mr,
    ensures
        0 <= row / mr < blocks,
        0 <= row % mr < mr,
        row == (row / mr) * mr + row % mr,
{
    let block = row / mr;
    let lane = row % mr;
    assert(row == block * mr + lane && 0 <= lane < mr && 0 <= block) by (nonlinear_arith)
        requires
            block == row / mr,
            lane == row % mr,
            0 <= row,
            0 < mr,
    ;
    assert(block < blocks) by (nonlinear_arith)
        requires
            block * mr <= row,
            row < blocks * mr,
            0 < mr,
    ;
}

/// A matrix of bytes, row by row.
#[derive(Debug, Clone, Copy)]
pub struct ByteRows<'a> {
    pub data: &'a [u8],
    pub rows: usize,
    pub cols: usize,
}

impl<'a> ByteRows<'a> {
    /// The storage holds all rows, and there is something in them.
    pub open spec fn wf(&self) -> bool {
        &&& self.rows > 0
        &&& self.cols > 0
        &&& self.data@.len() == self.rows * self.cols
    }

    /// An element of the matrix.
    pub open spec fn value(&self, row: int, col: int) -> u8 {
        self.data@[row * self.cols + col]
    }

    /// Views bytes as a matrix. There is none without rows or columns, or where the
    /// bytes are not as many as its elements.
    pub fn new(data: &'a [u8], rows: usize, cols: usize) -> (view: Option<Self>)
        ensures
            view is Some <==> (rows > 0 && cols > 0 && data@.len() == rows * cols),
            view is Some ==> view->0 == (ByteRows { data, rows, cols }),
    {
        if rows == 0 || cols == 0 {
            return None;
        }
        proof {
            assert(0 <= rows * cols) by (nonlinear_arith)
                requires
                    rows >= 0,
                    cols >= 0,
            ;
            assert(data.len() == data@.len());
        }
        match rows.checked_mul(cols) {
            Some(expected) => if data.len() == expected {
                Some(ByteRows { data, rows, cols })
            } else {
                None
            },
            None => None,
        }
    }

    /// Reads an element.
    pub fn at(&self, row: usize, col: usize) -> (element: u8)
        requires
            self.wf(),
            row < self.rows,
            col < self.cols,
        ensures
            element == self.value(row as int, col as int),
    {
        proof {
            let r = row as int;
            let n = self.rows as int;
            let c = self.cols as int;
            assert(0 <= r * c && r * c + c <= n * c) by (nonlinear_arith)
                requires
                    0 <= r < n,
                    0 <= c,
            ;
            assert(self.data.len() == self.data@.len());
        }
        self.data[row * self.cols + col]
    }
}

/// How a block-transposed matrix lies in memory: the elements of a row in two neighboring
/// columns stand side by side, behind those of the row before it in its block; the next two
/// columns of a block follow behind all its rows, and the next block behind all its columns.
pub proof fn lemma_offset_steps(mr: int, stored_cols: int, block: int, lane: int, col: int)
    requires
        0 <= block,
        0 <= lane,
        0 <= col,
    ensures
        offset(mr, stored_cols, 0, 0, 0) == 0,
        col % 2 == 0 ==> offset(mr, stored_cols, block, lane, col + 1) == offset(
            mr,
            stored_cols,
            block,
            lane,
            col,
        ) + 1,
        offset(mr, stored_cols, block, lane + 1, col) == offset(
            mr,
            stored_cols,
            block,
            lane,
            col,
        ) + 2,
        offset(mr, stored_cols, block, lane, col + 2) == offset(
            mr,
            stored_cols,
            block,
            lane,
            col,
        ) + 2 * mr,
        offset(mr, stored_cols, block + 1, lane, col) == offset(
            mr,
            stored_cols,
            block,
            lane,
            col,
        ) + mr * stored_cols,
{
    let stride = mr * stored_cols;
    let pair = col / 2;
    assert((block + 1) * stride == block * stride + stride) by (nonlinear_arith);
    assert((pair + 1) * (mr * 2) == pair * (mr * 2) + 2 * mr) by (nonlinear_arith);
    assert(0 * stride == 0 && 0 * (mr * 2) == 0) by (nonlinear_arith);
}

} // verus!
