//! What a rewrite will take.
use crate::arithmetic;
use crate::layout::error::InvalidLayout;
use crate::layout::error::LayoutError;
use crate::layout::fields;
use crate::layout::fields::StructuralFields;
use crate::layout::index;
use crate::layout::sidecar;
use vstd::prelude::*;

verus! {

/// Times a rewrite goes over the index.
pub const FILE_PASSES: u64 = 7;

/// Resource estimate for a graph-aware rewrite.
#[derive(Debug, Clone, Copy, PartialEq, Eq, Structural)]
pub struct LayoutEstimate {
    pub output_bytes: u64,
    pub sidecar_bytes: u64,
    pub temporary_bytes: u64,
    pub algorithm_resident_bytes: u64,
    pub mapping_bytes: u64,
    pub assignment_bytes: u64,
    pub score_bytes: u64,
    pub bitset_bytes: u64,
    pub block_vector_bytes: u64,
    pub file_passes: u64,
    pub bytes_processed: u64,
}

/// Bytes of a machine word.
pub open spec fn word_bytes() -> int {
    usize::BITS as int / 8
}

/// Blocks that nodes are packed into.
pub open spec fn packed_blocks(fields: StructuralFields) -> int {
    if fields.nodes_per_block > 0 {
        arithmetic::div_ceil(fields.num_points as int, fields.nodes_per_block as int)
    } else {
        fields.num_points as int
    }
}

/// Bytes of the mapping.
pub open spec fn mapping_bytes(fields: StructuralFields) -> int {
    fields.num_points * 4
}

/// Bytes of the block vectors: per node its ID and its block, per packed block
/// a vector, two words and five bytes, per physical block a histogram entry.
pub open spec fn block_vector_bytes(fields: StructuralFields) -> int {
    fields.num_points * (4 + word_bytes()) + packed_blocks(fields) * (24 + 2 * word_bytes() + 5)
        + fields.data_blocks() * 8
}

/// Bytes that the algorithm holds at once: the mapping, the assignments, the
/// scores, a bit per node and the block vectors.
pub open spec fn resident_bytes(fields: StructuralFields) -> int {
    mapping_bytes(fields) + fields.num_points + mapping_bytes(fields) + arithmetic::div_ceil(
        fields.num_points as int,
        8,
    ) + block_vector_bytes(fields)
}

/// Bytes that are read or written.
pub open spec fn processed_bytes(fields: StructuralFields) -> int {
    fields.index_len * FILE_PASSES + sidecar::FIXED_SIZE + mapping_bytes(fields)
}

/// Which estimate is the first that does not fit.
pub open spec fn estimate_fault(fields: StructuralFields) -> Option<InvalidLayout> {
    if fields.data_blocks() > u64::MAX {
        Some(InvalidLayout::PhysicalBlockEstimate)
    } else if mapping_bytes(fields) > u64::MAX {
        Some(InvalidLayout::MappingEstimate)
    } else if block_vector_bytes(fields) > u64::MAX {
        Some(InvalidLayout::BlockVectorEstimate)
    } else if resident_bytes(fields) > u64::MAX {
        Some(InvalidLayout::ResidentEstimate)
    } else if sidecar::FIXED_SIZE + mapping_bytes(fields) > u64::MAX {
        Some(InvalidLayout::SidecarEstimate)
    } else if processed_bytes(fields) > u64::MAX {
        Some(InvalidLayout::ProcessedEstimate)
    } else {
        None
    }
}

/// The estimate, where it fits.
pub open spec fn estimate_of(fields: StructuralFields) -> LayoutEstimate {
    LayoutEstimate {
        output_bytes: fields.index_len,
        sidecar_bytes: (sidecar::FIXED_SIZE + mapping_bytes(fields)) as u64,
        temporary_bytes: 0,
        algorithm_resident_bytes: resident_bytes(fields) as u64,
        mapping_bytes: mapping_bytes(fields) as u64,
        assignment_bytes: fields.num_points,
        score_bytes: mapping_bytes(fields) as u64,
        bitset_bytes: arithmetic::div_ceil(fields.num_points as int, 8) as u64,
        block_vector_bytes: block_vector_bytes(fields) as u64,
        file_passes: FILE_PASSES,
        bytes_processed: processed_bytes(fields) as u64,
    }
}

/// What estimating comes to.
pub open spec fn estimate_outcome(fields: StructuralFields) -> Result<LayoutEstimate, LayoutError> {
    match estimate_fault(fields) {
        Some(fault) => Err(LayoutError::Invalid(fault)),
        None => Ok(estimate_of(fields)),
    }
}

/// Bytes of the block vectors, if they are a `u64`.
fn block_vectors(points: u64, blocks: u64, physical_blocks: u64) -> (size: Option<u64>)
    ensures
        ({
            let total = points * (4 + word_bytes()) + blocks * (24 + 2 * word_bytes() + 5)
                + physical_blocks * 8;
            &&& size is Some <==> total <= u64::MAX
            &&& size is Some ==> size->0 == total
        }),
{
    let word: u64 = (usize::BITS / 8) as u64;
    assert(0 <= points * (4 + word) && 0 <= blocks * (24 + 2 * word + 5)) by (nonlinear_arith)
        requires
            points >= 0,
            blocks >= 0,
            word >= 0,
    ;
    let Some(nodes) = points.checked_mul(4 + word) else {
        return None;
    };
    let Some(vectors) = blocks.checked_mul(24 + 2 * word + 5) else {
        return None;
    };
    let Some(partial) = nodes.checked_add(vectors) else {
        return None;
    };
    let Some(histogram) = physical_blocks.checked_mul(8) else {
        return None;
    };
    partial.checked_add(histogram)
}

/// Bytes that the algorithm holds at once, if they are a `u64`.
fn resident(mapping: u64, points: u64, bits: u64, blocks: u64) -> (size: Option<u64>)
    ensures
        size is Some <==> mapping + points + mapping + bits + blocks <= u64::MAX,
        size is Some ==> size->0 == mapping + points + mapping + bits + blocks,
{
    let Some(size) = mapping.checked_add(points) else {
        return None;
    };
    let Some(size) = size.checked_add(mapping) else {
        return None;
    };
    let Some(size) = size.checked_add(bits) else {
        return None;
    };
    size.checked_add(blocks)
}

/// Estimates what a rewrite of an index with these fields will take.
pub fn estimate(fields: &StructuralFields) -> (result: Result<LayoutEstimate, LayoutError>)
    requires
        fields.block_size > 0,
    ensures
        result == estimate_outcome(*fields),
{
    let points: u64 = fields.num_points;
    let blocks: u64 = if fields.nodes_per_block > 0 {
        arithmetic::div_ceil_u64(points, fields.nodes_per_block)
    } else {
        points
    };
    let physical_blocks: u64 = if fields.nodes_per_block > 0 {
        blocks
    } else {
        let per_node: u64 = arithmetic::div_ceil_u64(fields.node_len, fields.block_size);
        match points.checked_mul(per_node) {
            Some(blocks) => blocks,
            None => {
                return Err(LayoutError::Invalid(InvalidLayout::PhysicalBlockEstimate));
            },
        }
    };
    let Some(mapping_bytes) = points.checked_mul(4) else {
        return Err(LayoutError::Invalid(InvalidLayout::MappingEstimate));
    };
    let bitset_bytes: u64 = arithmetic::div_ceil_u64(points, 8);
    let Some(block_vector_bytes) = block_vectors(points, blocks, physical_blocks) else {
        return Err(LayoutError::Invalid(InvalidLayout::BlockVectorEstimate));
    };
    let Some(algorithm_resident_bytes) = resident(
        mapping_bytes,
        points,
        bitset_bytes,
        block_vector_bytes,
    ) else {
        return Err(LayoutError::Invalid(InvalidLayout::ResidentEstimate));
    };
    let Some(sidecar_bytes) = sidecar::FIXED_SIZE.checked_add(mapping_bytes) else {
        return Err(LayoutError::Invalid(InvalidLayout::SidecarEstimate));
    };
    let Some(passes_bytes) = fields.index_len.checked_mul(FILE_PASSES) else {
        return Err(LayoutError::Invalid(InvalidLayout::ProcessedEstimate));
    };
    let Some(bytes_processed) = passes_bytes.checked_add(sidecar_bytes) else {
        return Err(LayoutError::Invalid(InvalidLayout::ProcessedEstimate));
    };
    Ok(
        LayoutEstimate {
            output_bytes: fields.index_len,
            sidecar_bytes,
            temporary_bytes: 0,
            algorithm_resident_bytes,
            mapping_bytes,
            assignment_bytes: points,
            score_bytes: mapping_bytes,
            bitset_bytes,
            block_vector_bytes,
            file_passes: FILE_PASSES,
            bytes_processed,
        },
    )
}

/// Estimate output and resident-memory requirements of rewriting an index of
/// `index_len` bytes that starts with the bytes `source_index`.
pub fn estimate_graph_aware_layout(source_index: &[u8], index_len: u64) -> (result: Result<
    LayoutEstimate,
    LayoutError,
>)
    ensures
        result == match index::source_fault(source_index@, index_len) {
            Some(fault) => Err(LayoutError::Invalid(fault)),
            None => estimate_outcome(
                fields::fields_of(fields::header_of(source_index@), index_len),
            ),
        },
{
    match index::read_source_header(source_index, index_len) {
        Ok(header) => estimate(&StructuralFields::from_header(&header, index_len)),
        Err(error) => Err(error),
    }
}

/// What an estimate adds up to. `blocks` is the least number of blocks that the nodes can be
/// packed into, `physical_blocks` how many blocks of the index their records reach into and
/// `word` the bytes of a machine word. Where every sum is a `u64` there is an estimate: the
/// resident bytes are the sum of the five parts that it lists, the sidecar is the mapping
/// behind its fixed part, and the bytes processed are those of every pass over the index and
/// of the sidecar.
pub proof fn lemma_estimate_adds_up(
    fields: StructuralFields,
    blocks: int,
    per_node: int,
    physical_blocks: int,
    word: int,
)
    requires
        fields.block_size > 0,
        if fields.nodes_per_block > 0 {
            fields.num_points <= blocks * fields.nodes_per_block < fields.num_points
                + fields.nodes_per_block && physical_blocks == blocks
        } else {
            &&& blocks == fields.num_points
            &&& fields.node_len <= per_node * fields.block_size < fields.node_len
                + fields.block_size
            &&& physical_blocks == fields.num_points * per_node
        },
        word * 8 == usize::BITS,
    ensures
        ({
            let points = fields.num_points as int;
            let vectors = points * (4 + word) + blocks * (24 + 2 * word + 5) + physical_blocks * 8;
            let outcome = estimate_outcome(fields);
            let parts = outcome->Ok_0;
            &&& outcome is Ok ==> {
                &&& parts.algorithm_resident_bytes == parts.mapping_bytes + parts.assignment_bytes
                    + parts.score_bytes + parts.bitset_bytes + parts.block_vector_bytes
                &&& parts.mapping_bytes == 4 * points
                &&& parts.assignment_bytes == points
                &&& parts.score_bytes == 4 * points
                &&& points <= 8 * parts.bitset_bytes < points + 8
                &&& parts.block_vector_bytes == vectors
                &&& parts.output_bytes == fields.index_len
                &&& parts.temporary_bytes == 0
                &&& parts.sidecar_bytes == 160 + parts.mapping_bytes
                &&& parts.file_passes == 7
                &&& parts.bytes_processed == parts.file_passes * parts.output_bytes
                    + parts.sidecar_bytes
            }
            &&& outcome is Ok <==> {
                &&& physical_blocks <= u64::MAX
                &&& 9 * points + (points + 7) / 8 + vectors <= u64::MAX
                &&& 7 * fields.index_len + 160 + 4 * points <= u64::MAX
            }
        }),
{
    let points = fields.num_points as int;
    arithmetic::lemma_div_ceil(points, 8);
    assert(arithmetic::div_ceil(points, 8) == (points + 7) / 8);
    if fields.nodes_per_block > 0 {
        arithmetic::lemma_least_cover(points, fields.nodes_per_block as int, blocks);
    } else {
        arithmetic::lemma_least_cover(fields.node_len as int, fields.block_size as int, per_node);
        assert(physical_blocks == fields.data_blocks());
    }
    assert(word == word_bytes());
    assert(physical_blocks == fields.data_blocks());
    assert(blocks == packed_blocks(fields));
    assert(0 <= blocks && 0 <= physical_blocks) by {
        if fields.nodes_per_block > 0 {
            assert(0 <= blocks) by (nonlinear_arith)
                requires
                    0 <= points <= blocks * fields.nodes_per_block,
                    fields.nodes_per_block > 0,
            ;
        } else {
            assert(0 <= per_node) by (nonlinear_arith)
                requires
                    0 <= fields.node_len <= per_node * fields.block_size,
                    fields.block_size > 0,
            ;
            assert(0 <= points * per_node) by (nonlinear_arith)
                requires
                    0 <= points,
                    0 <= per_node,
            ;
        }
    }
    assert(0 <= points * (4 + word) && 0 <= blocks * (24 + 2 * word + 5)) by (nonlinear_arith)
        requires
            0 <= points,
            0 <= blocks,
            0 <= word,
    ;
}

} // verus!
