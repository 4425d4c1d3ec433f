//! The geometry that an index header describes.
use crate::arithmetic;
use crate::bytes;
use crate::data_model::GraphHeader;
use crate::layout::error::InvalidLayout;
use crate::layout::error::LayoutError;
use vstd::prelude::*;

verus! {

/// Bytes of an index before its header.
pub const HEADER_OFFSET: usize = 8;

/// Bytes of an index up to the end of its header.
pub const HEADER_END: usize = 104;

/// The numbers of an index header that its layout depends on.
#[derive(Debug, Clone, Copy)]
pub struct StructuralFields {
    pub num_points: u64,
    pub dims: u64,
    pub medoid: u64,
    pub node_len: u64,
    pub block_size: u64,
    pub nodes_per_block: u64,
    pub associated_data_length: u64,
    pub index_len: u64,
}

/// The fields that a header and the length of its index give.
pub open spec fn fields_of(header: GraphHeader, index_len: u64) -> StructuralFields {
    StructuralFields {
        num_points: header.metadata.num_pts,
        dims: header.metadata.dims as u64,
        medoid: header.metadata.medoid,
        node_len: header.metadata.node_len,
        block_size: header.block_size,
        nodes_per_block: header.metadata.num_nodes_per_block,
        associated_data_length: header.metadata.associated_data_length as u64,
        index_len,
    }
}

/// The header that the first bytes of an index hold.
pub open spec fn header_of(index: Seq<u8>) -> GraphHeader {
    GraphHeader::read(index.subrange(HEADER_OFFSET as int, HEADER_END as int))
}

/// Whether an index of `index_len` bytes is too short for its header.
pub open spec fn header_truncated(index: Seq<u8>, index_len: u64) -> bool {
    index_len < HEADER_END || index.len() < HEADER_END
}

impl StructuralFields {
    /// The words that are bound to a mapping, in order.
    pub open spec fn words(self) -> Seq<u64> {
        seq![
            self.num_points,
            self.dims,
            self.medoid,
            self.node_len,
            self.block_size,
            self.nodes_per_block,
            self.associated_data_length,
            self.index_len,
        ]
    }

    /// Blocks behind the header block.
    pub open spec fn data_blocks(self) -> int {
        if self.nodes_per_block > 0 {
            arithmetic::div_ceil(self.num_points as int, self.nodes_per_block as int)
        } else {
            self.num_points * self.blocks_per_node()
        }
    }

    /// Blocks that one node record reaches into, where a block holds no whole record.
    pub open spec fn blocks_per_node(self) -> int {
        arithmetic::div_ceil(self.node_len as int, self.block_size as int)
    }

    /// The length of the index that the other fields describe.
    pub open spec fn described_len(self) -> int {
        self.block_size * (self.data_blocks() + 1)
    }

    /// Why the fields describe no index length.
    pub open spec fn geometry_fault(self) -> Option<InvalidLayout> {
        if self.block_size == 0 || self.node_len == 0 {
            Some(InvalidLayout::ZeroGeometry)
        } else if self.nodes_per_block > 0 && self.nodes_per_block != self.block_size / self.node_len {
            Some(InvalidLayout::NodesPerBlock { nodes_per_block: self.nodes_per_block })
        } else if self.nodes_per_block == 0 && self.data_blocks() > u64::MAX {
            Some(InvalidLayout::GeometryOverflow)
        } else if self.described_len() > u64::MAX {
            Some(InvalidLayout::IndexLengthOverflow)
        } else {
            None
        }
    }

    /// Reads the fields out of a header.
    pub fn from_header(header: &GraphHeader, index_len: u64) -> (fields: Self)
        ensures
            fields == fields_of(*header, index_len),
    {
        let metadata = header.metadata();
        StructuralFields {
            num_points: metadata.num_pts,
            dims: metadata.dims as u64,
            medoid: metadata.medoid,
            node_len: metadata.node_len,
            block_size: header.block_size(),
            nodes_per_block: metadata.num_nodes_per_block,
            associated_data_length: metadata.associated_data_length as u64,
            index_len,
        }
    }

    /// Appends the words that are bound to a mapping.
    pub fn append_words(&self, buffer: &mut Vec<u8>)
        ensures
            final(buffer)@ == old(buffer)@ + bytes::u64s_bytes(self.words()),
    {
        let words: [u64; 8] = [
            self.num_points,
            self.dims,
            self.medoid,
            self.node_len,
            self.block_size,
            self.nodes_per_block,
            self.associated_data_length,
            self.index_len,
        ];
        assert(words@ =~= self.words());
        bytes::append_u64s(buffer, &words);
    }
}

/// Reads the header of an index of `index_len` bytes out of its first bytes.
pub fn read_index_header(index: &[u8], index_len: u64) -> (result: Result<GraphHeader, LayoutError>)
    ensures
        result == if header_truncated(index@, index_len) {
            Err::<GraphHeader, LayoutError>(LayoutError::Invalid(InvalidLayout::HeaderTruncated))
        } else {
            Ok(header_of(index@))
        },
{
    if index_len < HEADER_END as u64 || index.len() < HEADER_END {
        return Err(LayoutError::Invalid(InvalidLayout::HeaderTruncated));
    }
    let header = vstd::slice::slice_subrange(index, HEADER_OFFSET, HEADER_END);
    match GraphHeader::try_from(header) {
        Ok(header) => Ok(header),
        Err(_) => Err(LayoutError::Invalid(InvalidLayout::HeaderTruncated)),
    }
}

/// The index length that the fields describe.
pub fn expected_index_len(fields: &StructuralFields) -> (result: Result<u64, LayoutError>)
    ensures
        match result {
            Ok(length) => fields.geometry_fault() is None && length == fields.described_len(),
            Err(error) => fields.geometry_fault() is Some && error == LayoutError::Invalid(
                fields.geometry_fault()->0,
            ),
        },
{
    if fields.block_size == 0 || fields.node_len == 0 {
        return Err(LayoutError::Invalid(InvalidLayout::ZeroGeometry));
    }
    let data_blocks: u64 = if fields.nodes_per_block > 0 {
        if fields.nodes_per_block != fields.block_size / fields.node_len {
            return Err(
                LayoutError::Invalid(
                    InvalidLayout::NodesPerBlock { nodes_per_block: fields.nodes_per_block },
                ),
            );
        }
        arithmetic::div_ceil_u64(fields.num_points, fields.nodes_per_block)
    } else {
        let blocks_per_node: u64 = arithmetic::div_ceil_u64(fields.node_len, fields.block_size);
        match fields.num_points.checked_mul(blocks_per_node) {
            Some(blocks) => blocks,
            None => {
                return Err(LayoutError::Invalid(InvalidLayout::GeometryOverflow));
            },
        }
    };
    assert(fields.block_size * (data_blocks + 1) >= data_blocks + 1) by (nonlinear_arith)
        requires
            fields.block_size >= 1,
            data_blocks >= 0,
    ;
    let blocks: u64 = match data_blocks.checked_add(1) {
        Some(blocks) => blocks,
        None => {
            return Err(LayoutError::Invalid(InvalidLayout::IndexLengthOverflow));
        },
    };
    match fields.block_size.checked_mul(blocks) {
        Some(length) => Ok(length),
        None => Err(LayoutError::Invalid(InvalidLayout::IndexLengthOverflow)),
    }
}

/// The length that fields describe: the header block and the blocks behind it, which are the
/// fewest that hold all records, `blocks` of them. There is such a length if records and
/// blocks have bytes, as many records share a block as fit in it, or none does, and it is a
/// `u64`.
pub proof fn lemma_described_length(fields: StructuralFields, per_node: int, blocks: int)
    requires
        fields.block_size > 0,
        fields.node_len <= per_node * fields.block_size < fields.node_len + fields.block_size,
        if fields.nodes_per_block > 0 {
            fields.num_points <= blocks * fields.nodes_per_block < fields.num_points
                + fields.nodes_per_block
        } else {
            blocks == fields.num_points * per_node
        },
    ensures
        fields.described_len() == fields.block_size + blocks * fields.block_size,
        fields.geometry_fault() is None <==> {
            &&& fields.node_len > 0
            &&& fields.nodes_per_block == 0 || fields.nodes_per_block == fields.block_size
                / fields.node_len
            &&& fields.block_size + blocks * fields.block_size <= u64::MAX
        },
{
    let size = fields.block_size as int;
    arithmetic::lemma_least_cover(fields.node_len as int, size, per_node);
    if fields.nodes_per_block > 0 {
        arithmetic::lemma_least_cover(
            fields.num_points as int,
            fields.nodes_per_block as int,
            blocks,
        );
    }
    assert(blocks == fields.data_blocks());
    assert(size * (blocks + 1) == size + blocks * size) by (nonlinear_arith);
    assert(size + blocks * size <= u64::MAX ==> blocks <= u64::MAX) by (nonlinear_arith)
        requires
            1 <= size,
    ;
}

/// A header can be read from an index of at least 104 bytes, of which at least as many are at
/// hand.
pub proof fn lemma_header_is_whole(index: Seq<u8>, index_len: u64)
    ensures
        header_truncated(index, index_len) <==> index_len < 104 || index.len() < 104,
{
}

} // verus!
