//! An index whose records are read in place.
use crate::arithmetic;
use crate::bytes;
use crate::data_model::GraphHeader;
use crate::data_model::GraphLayoutVersion;
use crate::layout::error::InvalidLayout;
use crate::layout::error::LayoutError;
use crate::layout::fields;
use crate::layout::fields::StructuralFields;
use vstd::prelude::*;

verus! {

/// Why an index with this header cannot be a source of a rewrite, as far as its
/// version and fingerprint go.
pub open spec fn version_fault(header: GraphHeader) -> Option<InvalidLayout> {
    let version = header.layout_version;
    if version == GraphLayoutVersion::spec_graph_aware() {
        Some(InvalidLayout::AlreadyGraphAware)
    } else if version != (GraphLayoutVersion { major_version: 0, minor_version: 0 }) && version
        != GraphLayoutVersion::spec_current() {
        Some(
            InvalidLayout::UnsupportedSourceVersion {
                major: version.major_version,
                minor: version.minor_version,
            },
        )
    } else if header.metadata.layout_fingerprint is Some {
        Some(InvalidLayout::LegacyFingerprint)
    } else {
        None
    }
}

/// Why the fields of a source index do not fit together.
pub open spec fn fields_fault(header: GraphHeader, fields: StructuralFields) -> Option<
    InvalidLayout,
> {
    if fields.num_points == 0 || fields.num_points > u32::MAX {
        Some(InvalidLayout::PointCount)
    } else if fields.medoid >= fields.num_points {
        Some(InvalidLayout::MedoidOutOfRange)
    } else if fields.block_size < fields::HEADER_END {
        Some(InvalidLayout::BlockTooSmall)
    } else if fields.geometry_fault() is Some {
        fields.geometry_fault()
    } else if fields.described_len() != fields.index_len || header.metadata.disk_index_file_size
        != fields.index_len {
        Some(
            InvalidLayout::IndexLength {
                actual: fields.index_len,
                expected: fields.described_len() as u64,
            },
        )
    } else if header.metadata.associated_data_length as u64 >= fields.node_len {
        Some(InvalidLayout::AssociatedData)
    } else {
        None
    }
}

/// Why an index of `index_len` bytes that starts with `index` cannot be a source
/// of a rewrite, as far as its header goes.
pub open spec fn source_fault(index: Seq<u8>, index_len: u64) -> Option<InvalidLayout> {
    let header = fields::header_of(index);
    if fields::header_truncated(index, index_len) {
        Some(InvalidLayout::HeaderTruncated)
    } else if version_fault(header) is Some {
        version_fault(header)
    } else {
        fields_fault(header, fields::fields_of(header, index_len))
    }
}

/// The fields fit together as those of a source index do.
pub open spec fn fields_fit(fields: StructuralFields) -> bool {
    &&& 0 < fields.num_points <= u32::MAX
    &&& fields.medoid < fields.num_points
    &&& fields.block_size >= fields::HEADER_END
    &&& fields.geometry_fault() is None
    &&& fields.described_len() == fields.index_len
    &&& fields.associated_data_length < fields.node_len
}

/// Bytes from one record to the next, where a block holds no whole record.
pub open spec fn stride(fields: StructuralFields) -> int {
    if fields.nodes_per_block == 0 {
        fields.blocks_per_node() * fields.block_size
    } else {
        fields.node_len as int
    }
}

/// Where the record of a slot starts.
pub open spec fn record_start(fields: StructuralFields, slot: int) -> int {
    if fields.nodes_per_block > 0 {
        fields.block_size + (slot / fields.nodes_per_block as int) * fields.block_size + (slot
            % fields.nodes_per_block as int) * fields.node_len
    } else {
        fields.block_size + slot * stride(fields)
    }
}

/// Where the record of a slot ends.
pub open spec fn record_end(fields: StructuralFields, slot: int) -> int {
    record_start(fields, slot) + fields.node_len
}

/// Bytes of a record for the vector and the adjacency list.
pub open spec fn usable_len(fields: StructuralFields) -> int {
    fields.node_len - fields.associated_data_length
}

/// The number of neighbors that the record of `node` gives, its vector being
/// `vector_bytes` long.
pub open spec fn neighbor_count(
    index: Seq<u8>,
    fields: StructuralFields,
    vector_bytes: int,
    node: int,
) -> u32 {
    bytes::u32_at(index, record_start(fields, node) + vector_bytes)
}

/// The neighbors that the record of `node` gives, its vector being `vector_bytes`
/// long.
pub open spec fn neighbors_of(
    index: Seq<u8>,
    fields: StructuralFields,
    vector_bytes: int,
    node: int,
) -> Seq<u32> {
    Seq::new(
        neighbor_count(index, fields, vector_bytes, node) as nat,
        |i: int| bytes::u32_at(index, record_start(fields, node) + vector_bytes + 4 + 4 * i),
    )
}

/// The records hold adjacency lists behind vectors of `vector_bytes`: the rest of
/// a record is a whole number of words, no list is longer than that and every
/// neighbor is a node.
pub open spec fn adjacency_fits(
    index: Seq<u8>,
    fields: StructuralFields,
    vector_bytes: int,
) -> bool {
    let room = usable_len(fields) - vector_bytes;
    &&& room >= 4
    &&& room % 4 == 0
    &&& forall|node: int|
        0 <= node < fields.num_points ==> #[trigger] node_fits(index, fields, vector_bytes, node)
}

/// The adjacency list of one record fits.
pub open spec fn node_fits(
    index: Seq<u8>,
    fields: StructuralFields,
    vector_bytes: int,
    node: int,
) -> bool {
    let list = neighbors_of(index, fields, vector_bytes, node);
    &&& list.len() <= (usable_len(fields) - vector_bytes) / 4 - 1
    &&& forall|i: int| 0 <= i < list.len() ==> #[trigger] list[i] < fields.num_points
}

/// The vector length that the records show: of the element sizes 4, 2, 1 and 8,
/// the first under which the adjacency lists fit.
pub open spec fn vector_len(index: Seq<u8>, fields: StructuralFields) -> Option<int> {
    if adjacency_fits(index, fields, fields.dims * 4) {
        Some(fields.dims * 4)
    } else if adjacency_fits(index, fields, fields.dims * 2) {
        Some(fields.dims * 2)
    } else if adjacency_fits(index, fields, fields.dims * 1) {
        Some(fields.dims * 1)
    } else if adjacency_fits(index, fields, fields.dims * 8) {
        Some(fields.dims * 8)
    } else {
        None
    }
}

/// Why an index cannot be opened as a source of a rewrite.
pub open spec fn open_fault(index: Seq<u8>) -> Option<InvalidLayout> {
    if source_fault(index, index.len() as u64) is Some {
        source_fault(index, index.len() as u64)
    } else if vector_len(
        index,
        fields::fields_of(fields::header_of(index), index.len() as u64),
    ) is None {
        Some(InvalidLayout::VectorWidth)
    } else {
        None
    }
}

/// Where records lie in blocks of several: they do not overlap and stay in
/// their block.
pub proof fn lemma_slot_in_block(slot: int, per_block: int, node_len: int, block_size: int)
    requires
        0 <= slot,
        0 < per_block,
        0 < node_len,
        per_block == block_size / node_len,
    ensures
        0 <= slot / per_block,
        0 <= slot % per_block < per_block,
        0 <= (slot / per_block) * block_size,
        0 <= (slot % per_block) * node_len,
        (slot % per_block) * node_len + node_len <= block_size,
{
    let within = slot % per_block;
    let block = slot / per_block;
    assert(0 <= within < per_block && 0 <= block) by (nonlinear_arith)
        requires
            within == slot % per_block,
            block == slot / per_block,
            0 <= slot,
            0 < per_block,
    ;
    assert(per_block * node_len <= block_size) by (nonlinear_arith)
        requires
            per_block == block_size / node_len,
            0 < node_len,
    ;
    assert(0 <= block * block_size && 0 <= within * node_len && within * node_len + node_len
        <= per_block * node_len) by (nonlinear_arith)
        requires
            0 <= within < per_block,
            0 <= block,
            0 < node_len,
            0 <= per_block * node_len <= block_size,
    ;
}

/// The record of every node lies behind the header block and within the index.
pub proof fn lemma_record_in_index(fields: StructuralFields, slot: int)
    requires
        fields_fit(fields),
        0 <= slot < fields.num_points,
    ensures
        fields.block_size <= record_start(fields, slot),
        record_end(fields, slot) <= fields.index_len,
{
    let n = fields.num_points as int;
    let size = fields.block_size as int;
    let len = fields.node_len as int;
    if fields.nodes_per_block > 0 {
        let per_block = fields.nodes_per_block as int;
        let blocks = arithmetic::div_ceil(n, per_block);
        arithmetic::lemma_div_ceil(n, per_block);
        lemma_slot_in_block(slot, per_block, len, size);
        let block = slot / per_block;
        assert(block + 1 <= blocks) by (nonlinear_arith)
            requires
                block == slot / per_block,
                0 <= slot < n,
                n <= blocks * per_block,
                0 < per_block,
        ;
        assert(block * size + size <= blocks * size) by (nonlinear_arith)
            requires
                block + 1 <= blocks,
                0 <= size,
        ;
        assert(size * (blocks + 1) == size + blocks * size) by (nonlinear_arith);
    } else {
        let per_node = fields.blocks_per_node();
        arithmetic::lemma_div_ceil(len, size);
        let step = per_node * size;
        assert(0 <= slot * step && slot * step + step <= n * step) by (nonlinear_arith)
            requires
                0 <= slot < n,
                0 <= step,
        ;
        assert(n * step == size * (n * per_node)) by (nonlinear_arith)
            requires
                step == per_node * size,
        ;
        assert(size * (n * per_node + 1) == size + size * (n * per_node)) by (nonlinear_arith);
    }
}

/// The records of two slots do not overlap.
pub proof fn lemma_records_apart(fields: StructuralFields, first: int, second: int)
    requires
        fields_fit(fields),
        0 <= first < second,
    ensures
        record_end(fields, first) <= record_start(fields, second),
{
    let size = fields.block_size as int;
    let len = fields.node_len as int;
    if fields.nodes_per_block > 0 {
        let per_block = fields.nodes_per_block as int;
        lemma_slot_in_block(first, per_block, len, size);
        lemma_slot_in_block(second, per_block, len, size);
        let first_block = first / per_block;
        let second_block = second / per_block;
        let first_within = first % per_block;
        let second_within = second % per_block;
        assert(first == first_block * per_block + first_within && second == second_block * per_block
            + second_within) by (nonlinear_arith)
            requires
                0 < per_block,
                first_block == first / per_block,
                first_within == first % per_block,
                second_block == second / per_block,
                second_within == second % per_block,
        ;
        assert(first_block <= second_block) by (nonlinear_arith)
            requires
                first_block == first / per_block,
                second_block == second / per_block,
                first < second,
                0 < per_block,
        ;
        if first_block == second_block {
            assert(first_within * len + len <= second_within * len) by (nonlinear_arith)
                requires
                    first_within < second_within,
                    0 < len,
            ;
        } else {
            assert(first_block * size + size <= second_block * size) by (nonlinear_arith)
                requires
                    first_block < second_block,
                    0 <= size,
            ;
        }
    } else {
        arithmetic::lemma_div_ceil(len, size);
        let step = stride(fields);
        assert(first * step + step <= second * step) by (nonlinear_arith)
            requires
                first < second,
                0 <= step,
        ;
    }
}

/// Records start one byte or more after each other.
proof fn lemma_starts_grow(fields: StructuralFields, slot: int)
    requires
        fields_fit(fields),
        0 <= slot,
    ensures
        slot < record_end(fields, slot),
    decreases slot,
{
    if slot > 0 {
        lemma_starts_grow(fields, slot - 1);
        lemma_records_apart(fields, slot - 1, slot);
    } else {
        if fields.nodes_per_block > 0 {
            lemma_slot_in_block(
                slot,
                fields.nodes_per_block as int,
                fields.node_len as int,
                fields.block_size as int,
            );
        }
    }
}

/// An index, its header and what the header says of its records.
#[derive(Debug)]
pub struct MappedIndex<'a> {
    pub bytes: &'a [u8],
    pub header: GraphHeader,
    pub fields: StructuralFields,
    pub vector_bytes: usize,
    pub record_stride: u64,
}

impl<'a> MappedIndex<'a> {
    /// The index was opened.
    pub open spec fn wf(&self) -> bool {
        &&& self.bytes@.len() <= usize::MAX
        &&& open_fault(self.bytes@) is None
        &&& self.header == fields::header_of(self.bytes@)
        &&& self.fields == fields::fields_of(self.header, self.bytes@.len() as u64)
        &&& self.record_stride == stride(self.fields)
        &&& vector_len(self.bytes@, self.fields) == Some(self.vector_bytes as int)
    }

    /// The neighbor lists of all nodes.
    pub open spec fn adjacency(&self) -> Seq<Seq<u32>> {
        Seq::new(
            self.fields.num_points as nat,
            |node: int| neighbors_of(self.bytes@, self.fields, self.vector_bytes as int, node),
        )
    }

    /// What an opened index gives: fields that fit, and a graph over its nodes.
    pub proof fn lemma_wf(&self)
        requires
            self.wf(),
        ensures
            fields_fit(self.fields),
            self.fields.index_len == self.bytes@.len(),
            adjacency_fits(self.bytes@, self.fields, self.vector_bytes as int),
            self.adjacency().len() == self.fields.num_points,
            forall|node: int, i: int|
                #![trigger self.adjacency()[node][i]]
                0 <= node < self.adjacency().len() && 0 <= i < self.adjacency()[node].len()
                    ==> self.adjacency()[node][i] < self.fields.num_points,
    {
        assert forall|node: int, i: int|
            #![trigger self.adjacency()[node][i]]
            0 <= node < self.adjacency().len() && 0 <= i
                < self.adjacency()[node].len() implies self.adjacency()[node][i]
            < self.fields.num_points by {
            assert(node_fits(self.bytes@, self.fields, self.vector_bytes as int, node));
        }
    }

    /// The points of an opened index can be counted in a `usize`.
    pub proof fn lemma_point_count(&self)
        requires
            self.wf(),
        ensures
            self.fields.num_points <= usize::MAX,
    {
        self.lemma_wf();
        lemma_starts_grow(self.fields, self.fields.num_points - 1);
        lemma_record_in_index(self.fields, self.fields.num_points - 1);
    }

    /// Opens an index as the source of a rewrite.
    pub fn open(index: &'a [u8]) -> (result: Result<MappedIndex<'a>, LayoutError>)
        ensures
            match result {
                Ok(mapped) => open_fault(index@) is None && mapped.wf() && mapped.bytes@ == index@,
                Err(error) => open_fault(index@) is Some && error == LayoutError::Invalid(
                    open_fault(index@)->0,
                ),
            },
    {
        let index_len: u64 = index.len() as u64;
        let header = match read_source_header(index, index_len) {
            Ok(header) => header,
            Err(error) => {
                return Err(error);
            },
        };
        let structure = StructuralFields::from_header(&header, index_len);
        let record_stride: u64 = if structure.nodes_per_block == 0 {
            proof {
                let per_node = structure.blocks_per_node();
                let n = structure.num_points as int;
                let size = structure.block_size as int;
                arithmetic::lemma_div_ceil(structure.node_len as int, size);
                assert(per_node * size <= size * (n * per_node + 1)) by (nonlinear_arith)
                    requires
                        1 <= n,
                        0 <= per_node,
                        0 <= size,
                ;
            }
            arithmetic::div_ceil_u64(structure.node_len, structure.block_size)
                * structure.block_size
        } else {
            structure.node_len
        };
        let mut mapped = MappedIndex {
            bytes: index,
            header,
            fields: structure,
            vector_bytes: 0,
            record_stride,
        };
        match mapped.infer_vector_bytes() {
            Ok(vector_bytes) => {
                mapped.vector_bytes = vector_bytes;
                Ok(mapped)
            },
            Err(error) => Err(error),
        }
    }

    /// The bytes of the record of a slot.
    pub fn record_range(&self, slot: u32) -> (result: Result<std::ops::Range<usize>, LayoutError>)
        requires
            fields_fit(self.fields),
            self.fields.index_len <= usize::MAX,
            self.record_stride == stride(self.fields),
        ensures
            result == if record_start(self.fields, slot as int) > u64::MAX {
                Err::<std::ops::Range<usize>, LayoutError>(
                    LayoutError::Invalid(InvalidLayout::RecordOffsetOverflow),
                )
            } else if record_end(self.fields, slot as int) > u64::MAX {
                Err(LayoutError::Invalid(InvalidLayout::RecordEndOverflow))
            } else if record_end(self.fields, slot as int) > self.fields.index_len {
                Err(LayoutError::Invalid(InvalidLayout::RecordBeyondIndex { slot }))
            } else {
                Ok(
                    (std::ops::Range {
                        start: record_start(self.fields, slot as int) as usize,
                        end: record_end(self.fields, slot as int) as usize,
                    }),
                )
            },
    {
        let start: u64 = match self.record_offset(slot) {
            Some(start) => start,
            None => {
                return Err(LayoutError::Invalid(InvalidLayout::RecordOffsetOverflow));
            },
        };
        let end: u64 = match start.checked_add(self.fields.node_len) {
            Some(end) => end,
            None => {
                return Err(LayoutError::Invalid(InvalidLayout::RecordEndOverflow));
            },
        };
        if end > self.fields.index_len {
            return Err(LayoutError::Invalid(InvalidLayout::RecordBeyondIndex { slot }));
        }
        Ok(std::ops::Range { start: start as usize, end: end as usize })
    }

    /// Where the record of a slot starts, if that is a `u64`.
    fn record_offset(&self, slot: u32) -> (offset: Option<u64>)
        requires
            fields_fit(self.fields),
            self.record_stride == stride(self.fields),
        ensures
            offset is Some <==> record_start(self.fields, slot as int) <= u64::MAX,
            offset is Some ==> offset->0 == record_start(self.fields, slot as int),
    {
        let slot: u64 = slot as u64;
        if self.fields.nodes_per_block > 0 {
            let block: u64 = slot / self.fields.nodes_per_block;
            let within: u64 = slot % self.fields.nodes_per_block;
            proof {
                lemma_slot_in_block(
                    slot as int,
                    self.fields.nodes_per_block as int,
                    self.fields.node_len as int,
                    self.fields.block_size as int,
                );
            }
            let Some(blocks) = block.checked_mul(self.fields.block_size) else {
                return None;
            };
            let Some(base) = self.fields.block_size.checked_add(blocks) else {
                return None;
            };
            let Some(inner) = within.checked_mul(self.fields.node_len) else {
                return None;
            };
            base.checked_add(inner)
        } else {
            assert(0 <= slot * self.record_stride) by (nonlinear_arith)
                requires
                    slot >= 0,
                    self.record_stride >= 0,
            ;
            let Some(offset) = slot.checked_mul(self.record_stride) else {
                return None;
            };
            self.fields.block_size.checked_add(offset)
        }
    }

    /// The vector length that the records show.
    fn infer_vector_bytes(&self) -> (result: Result<usize, LayoutError>)
        requires
            fields_fit(self.fields),
            self.fields.index_len == self.bytes@.len(),
            self.bytes@.len() <= usize::MAX,
            self.record_stride == stride(self.fields),
        ensures
            match result {
                Ok(vector_bytes) => vector_len(self.bytes@, self.fields) == Some(
                    vector_bytes as int,
                ),
                Err(error) => vector_len(self.bytes@, self.fields) is None && error
                    == LayoutError::Invalid(InvalidLayout::VectorWidth),
            },
    {
        let sizes: [u64; 4] = [4, 2, 1, 8];
        let mut at: usize = 0;
        while at < 4
            invariant
                at <= 4,
                sizes@ == seq![4u64, 2, 1, 8],
                fields_fit(self.fields),
                self.fields.index_len == self.bytes@.len(),
                self.bytes@.len() <= usize::MAX,
                self.record_stride == stride(self.fields),
                forall|i: int|
                    0 <= i < at ==> !adjacency_fits(
                        self.bytes@,
                        self.fields,
                        self.fields.dims * #[trigger] sizes@[i],
                    ),
            decreases 4 - at,
        {
            assert(sizes@[0] == 4 && sizes@[1] == 2 && sizes@[2] == 1 && sizes@[3] == 8);
            if let Some(vector_bytes) = self.fields.dims.checked_mul(sizes[at]) {
                if self.validate_adjacency_offset(vector_bytes) {
                    proof {
                        lemma_record_in_index(self.fields, 0);
                    }
                    return Ok(vector_bytes as usize);
                }
            } else {
                assert(!adjacency_fits(
                    self.bytes@,
                    self.fields,
                    self.fields.dims * sizes@[at as int],
                ));
            }
            at += 1;
        }
        assert(sizes@[0] == 4 && sizes@[1] == 2 && sizes@[2] == 1 && sizes@[3] == 8);
        Err(LayoutError::Invalid(InvalidLayout::VectorWidth))
    }

    /// Whether the adjacency lists fit behind vectors of `vector_bytes`.
    fn validate_adjacency_offset(&self, vector_bytes: u64) -> (valid: bool)
        requires
            fields_fit(self.fields),
            self.fields.index_len == self.bytes@.len(),
            self.bytes@.len() <= usize::MAX,
            self.record_stride == stride(self.fields),
        ensures
            valid == adjacency_fits(self.bytes@, self.fields, vector_bytes as int),
    {
        let usable: u64 = self.fields.node_len - self.fields.associated_data_length;
        if vector_bytes > usable {
            return false;
        }
        let room: u64 = usable - vector_bytes;
        if room < 4 || room % 4 != 0 {
            return false;
        }
        let max_neighbors: u64 = room / 4 - 1;
        let ghost vector = vector_bytes as int;
        let mut node: u32 = 0;
        while (node as u64) < self.fields.num_points
            invariant
                fields_fit(self.fields),
                self.fields.index_len == self.bytes@.len(),
                self.bytes@.len() <= usize::MAX,
                self.record_stride == stride(self.fields),
                node <= self.fields.num_points,
                vector == vector_bytes,
                usable == usable_len(self.fields),
                vector_bytes <= usable,
                room == usable - vector_bytes,
                room >= 4,
                max_neighbors == room / 4 - 1,
                forall|earlier: int|
                    0 <= earlier < node ==> #[trigger] node_fits(
                        self.bytes@,
                        self.fields,
                        vector,
                        earlier,
                    ),
            decreases self.fields.num_points - node,
        {
            proof {
                lemma_record_in_index(self.fields, node as int);
            }
            let start: usize = match self.record_range(node) {
                Ok(range) => range.start,
                Err(_) => {
                    return false;
                },
            };
            let base: usize = start + vector_bytes as usize;
            let count: u32 = bytes::read_u32_at(self.bytes, base);
            let ghost list = neighbors_of(self.bytes@, self.fields, vector, node as int);
            if count as u64 > max_neighbors {
                assert(!node_fits(self.bytes@, self.fields, vector, node as int));
                return false;
            }
            let mut at: u32 = 0;
            while at < count
                invariant
                    self.bytes@.len() <= usize::MAX,
                    vector == vector_bytes,
                    at <= count <= max_neighbors,
                    list == neighbors_of(self.bytes@, self.fields, vector, node as int),
                    list.len() == count,
                    base == record_start(self.fields, node as int) + vector,
                    base + 4 + 4 * max_neighbors <= self.bytes@.len(),
                    0 <= node < self.fields.num_points,
                    forall|i: int| 0 <= i < at ==> #[trigger] list[i] < self.fields.num_points,
                decreases count - at,
            {
                let neighbor: u32 = bytes::read_u32_at(self.bytes, base + 4 + 4 * at as usize);
                assert(list[at as int] == neighbor);
                if neighbor as u64 >= self.fields.num_points {
                    assert(!node_fits(self.bytes@, self.fields, vector, node as int));
                    return false;
                }
                at += 1;
            }
            assert(node_fits(self.bytes@, self.fields, vector, node as int));
            node += 1;
        }
        true
    }

    /// The neighbors of a node.
    pub fn neighbors(&self, logical: u32) -> (list: Vec<u32>)
        requires
            self.wf(),
            logical < self.fields.num_points,
        ensures
            list@ == self.adjacency()[logical as int],
    {
        proof {
            self.lemma_wf();
            lemma_record_in_index(self.fields, logical as int);
            assert(node_fits(self.bytes@, self.fields, self.vector_bytes as int, logical as int));
        }
        let start: usize = match self.record_range(logical) {
            Ok(range) => range.start,
            Err(_) => 0,
        };
        let base: usize = start + self.vector_bytes;
        let count: u32 = bytes::read_u32_at(self.bytes, base);
        let ghost all = self.adjacency()[logical as int];
        let mut list: Vec<u32> = Vec::new();
        let mut at: u32 = 0;
        while at < count
            invariant
                self.bytes@.len() <= usize::MAX,
                at <= count,
                all == neighbors_of(
                    self.bytes@,
                    self.fields,
                    self.vector_bytes as int,
                    logical as int,
                ),
                all.len() == count,
                base == record_start(self.fields, logical as int) + self.vector_bytes,
                base + 4 + 4 * count <= self.bytes@.len(),
                list@ == all.take(at as int),
            decreases count - at,
        {
            list.push(bytes::read_u32_at(self.bytes, base + 4 + 4 * at as usize));
            assert(all.take(at + 1) =~= all.take(at as int).push(all[at as int]));
            at += 1;
        }
        assert(all.take(at as int) =~= all);
        list
    }
}

/// Checks that a header can be that of a source of a rewrite.
pub fn validate_fields(header: &GraphHeader, fields: &StructuralFields) -> (result: Result<
    (),
    LayoutError,
>)
    ensures
        result == crate::layout::error::checked(fields_fault(*header, *fields)),
{
    if fields.num_points == 0 || fields.num_points > u32::MAX as u64 {
        return Err(LayoutError::Invalid(InvalidLayout::PointCount));
    }
    if fields.medoid >= fields.num_points {
        return Err(LayoutError::Invalid(InvalidLayout::MedoidOutOfRange));
    }
    if fields.block_size < fields::HEADER_END as u64 {
        return Err(LayoutError::Invalid(InvalidLayout::BlockTooSmall));
    }
    let expected: u64 = match fields::expected_index_len(fields) {
        Ok(expected) => expected,
        Err(error) => {
            return Err(error);
        },
    };
    if expected != fields.index_len || header.metadata().disk_index_file_size != fields.index_len {
        return Err(
            LayoutError::Invalid(InvalidLayout::IndexLength { actual: fields.index_len, expected }),
        );
    }
    if header.metadata().associated_data_length as u64 >= fields.node_len {
        return Err(LayoutError::Invalid(InvalidLayout::AssociatedData));
    }
    Ok(())
}

/// Reads the header of a source index and checks it.
pub fn read_source_header(index: &[u8], index_len: u64) -> (result: Result<GraphHeader, LayoutError>)
    ensures
        match result {
            Ok(header) => source_fault(index@, index_len) is None && header == fields::header_of(
                index@,
            ) && fields_fit(fields::fields_of(header, index_len)),
            Err(error) => source_fault(index@, index_len) is Some && error == LayoutError::Invalid(
                source_fault(index@, index_len)->0,
            ),
        },
{
    let header = match fields::read_index_header(index, index_len) {
        Ok(header) => header,
        Err(error) => {
            return Err(error);
        },
    };
    let version: GraphLayoutVersion = *header.layout_version();
    if version == GraphHeader::graph_aware_layout_version() {
        return Err(LayoutError::Invalid(InvalidLayout::AlreadyGraphAware));
    }
    if version != GraphLayoutVersion::new(0, 0) && version
        != GraphHeader::current_layout_version() {
        return Err(
            LayoutError::Invalid(
                InvalidLayout::UnsupportedSourceVersion {
                    major: version.major_version,
                    minor: version.minor_version,
                },
            ),
        );
    }
    if header.metadata().layout_fingerprint().is_some() {
        return Err(LayoutError::Invalid(InvalidLayout::LegacyFingerprint));
    }
    let structure = StructuralFields::from_header(&header, index_len);
    match validate_fields(&header, &structure) {
        Ok(()) => Ok(header),
        Err(error) => Err(error),
    }
}

/// Where records lie: the first behind the header block, records that share a block one
/// behind the other, the next block's records a block later; and where a block holds no whole
/// record, every record in the fewest blocks that hold it, behind those of the one before.
pub proof fn lemma_records_lie_in_order(fields: StructuralFields, slot: int)
    requires
        fields.block_size > 0,
        fields.node_len > 0,
        0 <= slot,
    ensures
        record_start(fields, 0) == fields.block_size,
        record_end(fields, slot) == record_start(fields, slot) + fields.node_len,
        fields.nodes_per_block > 0 ==> {
            &&& (slot + 1) % fields.nodes_per_block as int != 0 ==> record_start(fields, slot + 1)
                == record_start(fields, slot) + fields.node_len
            &&& record_start(fields, slot + fields.nodes_per_block) == record_start(fields, slot)
                + fields.block_size
        },
        fields.nodes_per_block == 0 ==> {
            let step = record_start(fields, slot + 1) - record_start(fields, slot);
            &&& step % fields.block_size as int == 0
            &&& fields.node_len <= step < fields.node_len + fields.block_size
        },
{
    let size = fields.block_size as int;
    let len = fields.node_len as int;
    let per_block = fields.nodes_per_block as int;
    if per_block > 0 {
        let block = slot / per_block;
        let within = slot % per_block;
        assert(slot == block * per_block + within && 0 <= within < per_block) by (nonlinear_arith)
            requires
                block == slot / per_block,
                within == slot % per_block,
                0 < per_block,
        ;
        assert(slot + per_block == (block + 1) * per_block + within) by (nonlinear_arith)
            requires
                slot == block * per_block + within,
        ;
        arithmetic::lemma_quotient_and_rest(block + 1, within, per_block);
        assert((block + 1) * size == block * size + size) by (nonlinear_arith);
        if within + 1 < per_block {
            arithmetic::lemma_quotient_and_rest(block, within + 1, per_block);
            assert((within + 1) * len == within * len + len) by (nonlinear_arith);
        } else {
            assert(slot + 1 == (block + 1) * per_block + 0) by (nonlinear_arith)
                requires
                    slot == block * per_block + within,
                    within + 1 == per_block,
            ;
            arithmetic::lemma_quotient_and_rest(block + 1, 0, per_block);
        }
        assert(0int / per_block == 0 && 0int % per_block == 0) by (nonlinear_arith)
            requires
                0 < per_block,
        ;
        assert(0 * size == 0 && 0 * len == 0);
    } else {
        let count = fields.blocks_per_node();
        let step = stride(fields);
        arithmetic::lemma_div_ceil(len, size);
        assert((slot + 1) * step == slot * step + step) by (nonlinear_arith);
        assert(0 * step == 0) by (nonlinear_arith);
        assert((count * size) % size == 0) by (nonlinear_arith)
            requires
                0 < size,
        ;
    }
}

/// Which headers are accepted as those of a source: they describe between one and `u32::MAX`
/// points, a medoid among them, blocks that hold a header, records of one byte or more that
/// are longer than their associated data and lie as many to a block as fit in it, or span
/// blocks, and an index of the length that it has. `blocks` is the number of blocks behind
/// the header block.
pub proof fn lemma_source_fields_accepted(
    header: GraphHeader,
    fields: StructuralFields,
    per_node: int,
    blocks: int,
)
    requires
        fields.block_size > 0,
        fields.node_len <= per_node * fields.block_size < fields.node_len + fields.block_size,
        if fields.nodes_per_block > 0 {
            fields.num_points <= blocks * fields.nodes_per_block < fields.num_points
                + fields.nodes_per_block
        } else {
            blocks == fields.num_points * per_node
        },
        header.metadata.associated_data_length == fields.associated_data_length,
    ensures
        fields_fault(header, fields) is None <==> {
            &&& 0 < fields.num_points <= u32::MAX
            &&& fields.medoid < fields.num_points
            &&& fields.block_size >= 104
            &&& fields.node_len > 0
            &&& fields.associated_data_length < fields.node_len
            &&& fields.nodes_per_block == 0 || fields.nodes_per_block == fields.block_size
                / fields.node_len
            &&& fields.index_len == fields.block_size * (blocks + 1)
            &&& header.metadata.disk_index_file_size == fields.index_len
        },
{
    let size = fields.block_size as int;
    arithmetic::lemma_least_cover(fields.node_len as int, size, per_node);
    if fields.nodes_per_block > 0 {
        arithmetic::lemma_least_cover(fields.num_points as int, fields.nodes_per_block as int, blocks);
    }
    assert(blocks == fields.data_blocks());
    assert(size * (blocks + 1) <= u64::MAX ==> blocks <= u64::MAX) by (nonlinear_arith)
        requires
            1 <= size,
    ;
}

/// Which versions are accepted: 0.0 and 1.0, without a fingerprint.
pub proof fn lemma_source_versions_accepted(header: GraphHeader)
    ensures
        version_fault(header) is None <==> {
            &&& header.metadata.layout_fingerprint is None
            &&& header.layout_version.minor_version == 0
            &&& header.layout_version.major_version <= 1
        },
{
}

/// How the vector length is found: of four, two, one and eight bytes for each dimension, it is
/// the first under which every record holds a list that fits behind the vector and names
/// nodes only; the lists are then those that the records hold.
pub proof fn lemma_vector_len_is_first_fit(index: Seq<u8>, fields: StructuralFields, node: int)
    requires
        fields_fit(fields),
        fields.index_len == index.len(),
        0 <= node < fields.num_points,
    ensures
        ({
            let fits = |width: int| adjacency_fits(index, fields, fields.dims * width);
            let found = vector_len(index, fields);
            &&& fits(4) ==> found == Some(fields.dims * 4)
            &&& !fits(4) && fits(2) ==> found == Some(fields.dims * 2)
            &&& !fits(4) && !fits(2) && fits(1) ==> found == Some(fields.dims as int)
            &&& !fits(4) && !fits(2) && !fits(1) && fits(8) ==> found == Some(fields.dims * 8)
            &&& !fits(4) && !fits(2) && !fits(1) && !fits(8) ==> found is None
            &&& found is Some ==> {
                let record = index.subrange(
                    record_start(fields, node),
                    record_start(fields, node) + fields.node_len,
                );
                let list = neighbors_of(index, fields, found->0, node);
                let room = fields.node_len - fields.associated_data_length - found->0;
                &&& crate::search::bfs::listed_neighbors(record, found->0) == Some(list)
                &&& room % 4 == 0
                &&& 4 + 4 * list.len() <= room
                &&& forall|at: int| 0 <= at < list.len() ==> #[trigger] list[at] < fields.num_points
            }
        }),
{
    let found = vector_len(index, fields);
    if found is Some {
        let width = found->0;
        let start = record_start(fields, node);
        let record = index.subrange(start, start + fields.node_len);
        let list = neighbors_of(index, fields, width, node);
        assert(adjacency_fits(index, fields, width));
        assert(node_fits(index, fields, width, node));
        lemma_record_in_index(fields, node);
        assert(0 <= width) by (nonlinear_arith)
            requires
                width == fields.dims * 4 || width == fields.dims * 2 || width == fields.dims * 1
                    || width == fields.dims * 8,
        ;
        let room = usable_len(fields) - width;
        assert(4 + 4 * list.len() <= room);
        assert forall|offset: int| 0 <= offset && offset + 4 <= record.len() implies
            #[trigger] bytes::u32_at(record, offset) == bytes::u32_at(index, start + offset) by {
            assert(record.subrange(offset, offset + 4) =~= index.subrange(
                start + offset,
                start + offset + 4,
            ));
        }
        assert(bytes::u32_at(record, width) == neighbor_count(index, fields, width, node));
        let listed = crate::search::bfs::listed_neighbors(record, width);
        assert(listed is Some);
        assert(listed->0 =~= list) by {
            assert forall|at: int| 0 <= at < list.len() implies listed->0[at] == list[at] by {
                assert(bytes::u32_at(record, width + 4 + 4 * at) == bytes::u32_at(
                    index,
                    start + (width + 4 + 4 * at),
                ));
            }
        }
    }
}

/// Which indexes can be opened as a source: those whose header is whole, has an accepted
/// version and accepted fields, and whose records show a vector length.
pub proof fn lemma_index_opens(index: Seq<u8>)
    requires
        index.len() <= u64::MAX,
    ensures
        open_fault(index) is None <==> {
            let header = fields::header_of(index);
            let structure = fields::fields_of(header, index.len() as u64);
            &&& index.len() >= 104
            &&& version_fault(header) is None
            &&& fields_fault(header, structure) is None
            &&& vector_len(index, structure) is Some
        },
{
}

/// The fields of an index are the numbers of its header and the length of the index.
pub proof fn lemma_fields_are_those_of_header(header: GraphHeader, index_len: u64)
    ensures
        ({
            let structure = fields::fields_of(header, index_len);
            &&& structure.num_points == header.metadata.num_pts
            &&& structure.dims == header.metadata.dims
            &&& structure.medoid == header.metadata.medoid
            &&& structure.node_len == header.metadata.node_len
            &&& structure.block_size == header.block_size
            &&& structure.nodes_per_block == header.metadata.num_nodes_per_block
            &&& structure.associated_data_length == header.metadata.associated_data_length
            &&& structure.index_len == index_len
        }),
{
}

} // verus!
