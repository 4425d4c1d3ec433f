//! Sector graph: which sectors of a disk index hold nodes, and what was read of them.
use crate::arithmetic;
use crate::data_model::GraphHeader;
use crate::data_model::GraphLayoutVersion;
use crate::data_model::LayoutFingerprint;
use crate::layout::fields::StructuralFields;
use crate::layout::image;
use crate::layout::index;
use crate::layout::PhysicalLayout;
use crate::text;
use std::sync::Arc;
use vstd::prelude::*;

verus! {

/// Bytes of a sector where the header gives none.
pub const DEFAULT_DISK_SECTOR_LEN: usize = 4096;

/// What reading nodes took.
#[derive(Debug, Clone, Copy, PartialEq, Eq, Structural)]
pub struct PhysicalReadMetrics {
    pub read_requests: u32,
    pub blocks_read: u64,
    pub bytes_read: u64,
}

/// Where a node lies in what was read.
#[derive(Debug, Clone, Copy, PartialEq, Eq, Structural)]
pub struct LoadedNodeLocation {
    pub buffer_block_index: usize,
    pub node_offset: usize,
}

/// Bytes of the index to read, from `offset` on, and where in the buffer they go.
#[derive(Debug, Clone, Copy, PartialEq, Eq, Structural)]
pub struct ReadRequest {
    pub offset: u64,
    pub buffer_start: usize,
    pub buffer_len: usize,
}

/// What to read for a batch of nodes.
#[derive(Debug)]
pub struct ReadPlan {
    pub requests: Vec<ReadRequest>,
    pub blocks_read: u64,
    pub bytes_read: u64,
    pub sectors_advanced: usize,
}

/// Why nodes cannot be read.
#[derive(Debug, Clone, Copy, PartialEq, Eq, Structural)]
pub enum SectorGraphError {
    /// More sectors are to be read than the buffer has room for.
    TooManySectors { requested: usize, available: usize },
    /// A node takes up no bytes.
    ZeroLength { num_sectors_per_node: usize, block_size: usize },
    /// More nodes are to be read than fit in a batch.
    TooManyVertices { requested: usize, max: usize },
    /// A node is outside the physical layout.
    VertexOutsideLayout { vertex_id: u32 },
    /// The sector of a node is not among those to read.
    SectorMissing,
    /// The number of bytes to read overflows.
    ByteCountOverflow,
    /// The size of the buffer overflows.
    BufferSizeOverflow,
    /// The sectors to read do not fit in the buffer.
    PlanExceedsBuffer { required: usize, available: usize },
    /// The number of requests overflows.
    RequestCountOverflow,
    /// Nothing was read at this index.
    NoLocation { node_index_local: usize },
    /// The offset of a node overflows.
    NodeOffsetOverflow,
    /// The end of a node overflows.
    NodeEndOverflow,
    /// A node is outside what was read.
    NodeOutsideBuffer,
}

impl SectorGraphError {
    /// The text of the error.
    pub open spec fn text(self) -> Seq<char> {
        match self {
            SectorGraphError::TooManySectors { requested, available } => {
                "Trying to read too many sectors. number of sectors to read: "@
                    + text::decimal(requested as nat) + ", max number of sectors can read: "@
                    + text::decimal(available as nat)
            },
            SectorGraphError::ZeroLength { num_sectors_per_node, block_size } => {
                "len_per_node is 0 (num_sectors_per_node="@
                    + text::decimal(num_sectors_per_node as nat) + ", block_size="@
                    + text::decimal(block_size as nat) + ")"@
            },
            SectorGraphError::TooManyVertices { requested, max } => {
                "Trying to read too many vertices. number of vertices to read: "@
                    + text::decimal(requested as nat) + ", max: "@ + text::decimal(max as nat)
            },
            SectorGraphError::VertexOutsideLayout { vertex_id } => {
                "Logical vertex ID "@ + text::decimal(vertex_id as nat)
                    + " is outside physical layout"@
            },
            SectorGraphError::SectorMissing => "mapped vertex sector missing from read plan"@,
            SectorGraphError::ByteCountOverflow => "physical read byte count overflow"@,
            SectorGraphError::BufferSizeOverflow => "physical read buffer size overflow"@,
            SectorGraphError::PlanExceedsBuffer { required, available } => {
                "Mapped read plan requires "@ + text::decimal(required as nat)
                    + " bytes, buffer has "@ + text::decimal(available as nat)
            },
            SectorGraphError::RequestCountOverflow => "read request count overflow"@,
            SectorGraphError::NoLocation { node_index_local } => {
                "No mapped read location for local node index "@
                    + text::decimal(node_index_local as nat)
            },
            SectorGraphError::NodeOffsetOverflow => "mapped node offset overflow"@,
            SectorGraphError::NodeEndOverflow => "mapped node end overflow"@,
            SectorGraphError::NodeOutsideBuffer => "mapped node is outside read buffer"@,
        }
    }

    /// The text of the error.
    pub fn message(&self) -> (message: String)
        ensures
            message@ == self.text(),
    {
        match *self {
            SectorGraphError::TooManySectors { requested, available } => text::two_numbers(
                "Trying to read too many sectors. number of sectors to read: ",
                requested as u64,
                ", max number of sectors can read: ",
                available as u64,
                None,
            ),
            SectorGraphError::ZeroLength { num_sectors_per_node, block_size } => text::two_numbers(
                "len_per_node is 0 (num_sectors_per_node=",
                num_sectors_per_node as u64,
                ", block_size=",
                block_size as u64,
                Some(")"),
            ),
            SectorGraphError::TooManyVertices { requested, max } => text::two_numbers(
                "Trying to read too many vertices. number of vertices to read: ",
                requested as u64,
                ", max: ",
                max as u64,
                None,
            ),
            SectorGraphError::VertexOutsideLayout { vertex_id } => text::one_number(
                "Logical vertex ID ",
                vertex_id as u64,
                Some(" is outside physical layout"),
            ),
            SectorGraphError::SectorMissing => {
                "mapped vertex sector missing from read plan".to_owned()
            },
            SectorGraphError::ByteCountOverflow => "physical read byte count overflow".to_owned(),
            SectorGraphError::BufferSizeOverflow => "physical read buffer size overflow".to_owned(),
            SectorGraphError::PlanExceedsBuffer { required, available } => text::two_numbers(
                "Mapped read plan requires ",
                required as u64,
                " bytes, buffer has ",
                available as u64,
                None,
            ),
            SectorGraphError::RequestCountOverflow => "read request count overflow".to_owned(),
            SectorGraphError::NoLocation { node_index_local } => text::one_number(
                "No mapped read location for local node index ",
                node_index_local as u64,
                None,
            ),
            SectorGraphError::NodeOffsetOverflow => "mapped node offset overflow".to_owned(),
            SectorGraphError::NodeEndOverflow => "mapped node end overflow".to_owned(),
            SectorGraphError::NodeOutsideBuffer => "mapped node is outside read buffer".to_owned(),
        }
    }
}

/// Sector graph read from disk index.
///
/// One sector has `num_nodes_per_sector` nodes, or a node takes up
/// `num_sectors_per_node` sectors.
#[derive(Debug)]
pub struct DiskSectorGraph {
    /// Sector bytes from disk.
    pub sectors_data: Vec<u8>,
    /// Current sector index into which the next read reads data.
    pub cur_sector_idx: u64,
    /// 0 for multi-sector nodes, >0 for multi-node sectors.
    pub num_nodes_per_sector: u64,
    pub node_len: u64,
    pub max_n_batch_sector_read: usize,
    pub num_sectors_per_node: usize,
    pub block_size: usize,
    pub physical_layout: Option<Arc<PhysicalLayout>>,
    pub loaded_node_locations: Vec<LoadedNodeLocation>,
}

/// Bytes of a sector of an index.
pub open spec fn sector_len(header: GraphHeader) -> usize {
    if header.layout_version == (GraphLayoutVersion { major_version: 0, minor_version: 0 })
        || header.block_size as usize == 0 {
        DEFAULT_DISK_SECTOR_LEN
    } else {
        header.block_size as usize
    }
}

/// Sectors that a node of an index takes up.
pub open spec fn sectors_per_node(header: GraphHeader) -> int {
    if header.metadata.num_nodes_per_block > 0 {
        1
    } else {
        arithmetic::div_ceil(
            header.metadata.node_len as usize as int,
            sector_len(header) as int,
        )
    }
}

/// Every sector of `list` is larger than the one before it.
pub open spec fn is_increasing(list: Seq<u64>) -> bool {
    forall|i: int, j: int| 0 <= i < j < list.len() ==> list[i] < list[j]
}

/// The end of the run of consecutive sectors that reaches to `to`.
pub open spec fn run_end(list: Seq<u64>, to: int) -> int
    decreases list.len() - to,
{
    if to >= list.len() || list[to] != list[to - 1] + 1 {
        to
    } else {
        run_end(list, to + 1)
    }
}

/// The request that reads the sectors from `from` to `to`.
pub open spec fn run_request(list: Seq<u64>, block_size: int, from: int, to: int) -> ReadRequest {
    ReadRequest {
        offset: (list[from] * block_size) as u64,
        buffer_start: (from * block_size) as usize,
        buffer_len: ((to - from) * block_size) as usize,
    }
}

/// One request for every longest run of consecutive sectors, from position `from` on.
pub open spec fn run_requests(list: Seq<u64>, block_size: int, from: int) -> Seq<ReadRequest>
    decreases list.len() - from,
{
    if !(0 <= from < list.len()) {
        Seq::empty()
    } else {
        proof {
            lemma_run_end(list, from + 1);
        }
        let to = run_end(list, from + 1);
        seq![run_request(list, block_size, from, to)] + run_requests(list, block_size, to)
    }
}

/// A run ends within the list, and its sectors are consecutive.
pub proof fn lemma_run_end(list: Seq<u64>, to: int)
    requires
        0 < to <= list.len(),
    ensures
        to <= run_end(list, to) <= list.len(),
        forall|at: int|
            to <= at < run_end(list, to) ==> #[trigger] list[at] == list[to - 1] + (at - to + 1),
        run_end(list, to) < list.len() ==> list[run_end(list, to)] != list[run_end(list, to) - 1]
            + 1,
    decreases list.len() - to,
{
    if to < list.len() && list[to] == list[to - 1] + 1 {
        lemma_run_end(list, to + 1);
    }
}

impl DiskSectorGraph {
    /// Bytes of the buffer for one node.
    pub open spec fn chunk_len(&self) -> int {
        self.num_sectors_per_node * self.block_size
    }

    /// The buffer holds a batch of nodes, and no more were read.
    pub open spec fn wf(&self) -> bool {
        &&& self.cur_sector_idx <= self.max_n_batch_sector_read
        &&& self.max_n_batch_sector_read * self.chunk_len() <= self.sectors_data@.len()
    }

    /// The slot of a node: where the layout puts it, or the node's own number
    /// without a layout.
    pub open spec fn slot_of(&self, vertex_id: u32) -> Option<u32> {
        match self.physical_layout {
            Some(layout) => if vertex_id < layout@.len() {
                Some(layout@[vertex_id as int])
            } else {
                None
            },
            None => Some(vertex_id),
        }
    }

    /// The first sector of the node in a slot; sector 0 is the header.
    pub open spec fn sector_of_slot(&self, slot: u32) -> int {
        1 + if self.num_nodes_per_sector > 0 {
            slot as int / self.num_nodes_per_sector as int
        } else {
            slot * self.num_sectors_per_node
        }
    }

    /// Where in its first sector the node in a slot starts.
    pub open spec fn offset_of_slot(&self, slot: u32) -> int {
        if self.num_nodes_per_sector == 0 {
            0
        } else {
            (slot as int % self.num_nodes_per_sector as int) * self.node_len
        }
    }

    /// The first sector of a node.
    pub open spec fn sector_of(&self, vertex_id: u32) -> int {
        self.sector_of_slot(self.slot_of(vertex_id)->0)
    }

    /// Where in its first sector a node starts.
    pub open spec fn offset_of(&self, vertex_id: u32) -> int {
        self.offset_of_slot(self.slot_of(vertex_id)->0)
    }

    /// The sector and the offset of a node, if it has a slot, are `u64`s.
    pub open spec fn node_fits(&self, vertex_id: u32) -> bool {
        self.slot_of(vertex_id) is Some ==> self.sector_of(vertex_id) <= u64::MAX
            && self.offset_of(vertex_id) <= u64::MAX
    }

    /// Create a sector graph without a layout.
    pub fn new(header: &GraphHeader, max_n_batch_sector_read: usize) -> (graph: Self)
        requires
            max_n_batch_sector_read * sectors_per_node(*header) * sector_len(*header) <= usize::MAX,
        ensures
            graph.is_new(*header, max_n_batch_sector_read, None),
    {
        Self::new_with_layout(header, max_n_batch_sector_read, None)
    }

    /// The graph is that of `header`, with an empty buffer and nothing read.
    pub open spec fn is_new(
        &self,
        header: GraphHeader,
        max_n_batch_sector_read: usize,
        layout: Option<Arc<PhysicalLayout>>,
    ) -> bool {
        &&& self.wf()
        &&& self.sectors_data@ == Seq::new(
            (max_n_batch_sector_read * self.chunk_len()) as nat,
            |at: int| 0u8,
        )
        &&& self.cur_sector_idx == 0
        &&& self.num_nodes_per_sector == header.metadata.num_nodes_per_block
        &&& self.node_len == header.metadata.node_len
        &&& self.max_n_batch_sector_read == max_n_batch_sector_read
        &&& self.num_sectors_per_node == sectors_per_node(header)
        &&& self.block_size == sector_len(header)
        &&& self.physical_layout == layout
        &&& self.loaded_node_locations@.len() == 0
    }

    /// Create a sector graph whose nodes are where the layout puts them.
    pub fn new_with_layout(
        header: &GraphHeader,
        max_n_batch_sector_read: usize,
        physical_layout: Option<Arc<PhysicalLayout>>,
    ) -> (graph: Self)
        requires
            max_n_batch_sector_read * sectors_per_node(*header) * sector_len(*header) <= usize::MAX,
        ensures
            graph.is_new(*header, max_n_batch_sector_read, physical_layout),
    {
        let version: GraphLayoutVersion = *header.layout_version();
        let given: usize = header.block_size() as usize;
        let block_size: usize = if version == GraphLayoutVersion::new(0, 0) || given == 0 {
            DEFAULT_DISK_SECTOR_LEN
        } else {
            given
        };
        let num_nodes_per_sector: u64 = header.metadata().num_nodes_per_block;
        let node_len: u64 = header.metadata().node_len;
        let num_sectors_per_node: usize = if num_nodes_per_sector > 0 {
            1
        } else {
            arithmetic::div_ceil_u64(node_len as usize as u64, block_size as u64) as usize
        };
        let length: usize = buffer_len(max_n_batch_sector_read, num_sectors_per_node, block_size);
        let sectors_data: Vec<u8> = vec![0u8; length];
        let graph = DiskSectorGraph {
            sectors_data,
            cur_sector_idx: 0,
            num_nodes_per_sector,
            node_len,
            max_n_batch_sector_read,
            num_sectors_per_node,
            block_size,
            physical_layout,
            loaded_node_locations: Vec::new(),
        };
        assert(graph.sectors_data@ =~= Seq::new(
            (max_n_batch_sector_read * graph.chunk_len()) as nat,
            |at: int| 0u8,
        ));
        graph
    }

    /// Reconfigure the graph if the max number of sectors to read is larger than
    /// the current one.
    pub fn reconfigure(&mut self, max_n_batch_sector_read: usize)
        requires
            max_n_batch_sector_read > old(self).max_n_batch_sector_read ==> max_n_batch_sector_read
                * old(self).num_sectors_per_node * old(self).block_size <= usize::MAX,
        ensures
            if max_n_batch_sector_read > old(self).max_n_batch_sector_read {
                &&& final(self).max_n_batch_sector_read == max_n_batch_sector_read
                &&& final(self).sectors_data@ == Seq::new(
                    (max_n_batch_sector_read * old(self).chunk_len()) as nat,
                    |at: int| 0u8,
                )
                &&& final(self).same_shape(*old(self))
                &&& final(self).cur_sector_idx == old(self).cur_sector_idx
                &&& final(self).loaded_node_locations == old(self).loaded_node_locations
                &&& old(self).wf() ==> final(self).wf()
            } else {
                *final(self) == *old(self)
            },
    {
        if max_n_batch_sector_read > self.max_n_batch_sector_read {
            let length: usize = buffer_len(
                max_n_batch_sector_read,
                self.num_sectors_per_node,
                self.block_size,
            );
            self.max_n_batch_sector_read = max_n_batch_sector_read;
            self.sectors_data = vec![0u8; length];
            assert(self.sectors_data@ =~= Seq::new(
                (max_n_batch_sector_read * self.chunk_len()) as nat,
                |at: int| 0u8,
            ));
        }
    }

    /// What no read changes.
    pub open spec fn same_shape(&self, other: Self) -> bool {
        &&& self.num_nodes_per_sector == other.num_nodes_per_sector
        &&& self.node_len == other.node_len
        &&& self.num_sectors_per_node == other.num_sectors_per_node
        &&& self.block_size == other.block_size
        &&& self.physical_layout == other.physical_layout
    }

    /// Forget what was read.
    pub fn reset(&mut self)
        ensures
            final(self).same_shape(*old(self)),
            final(self).max_n_batch_sector_read == old(self).max_n_batch_sector_read,
            final(self).sectors_data == old(self).sectors_data,
            final(self).cur_sector_idx == 0,
            final(self).loaded_node_locations@.len() == 0,
            old(self).wf() ==> final(self).wf(),
    {
        self.cur_sector_idx = 0;
        self.loaded_node_locations.clear();
    }

    /// Why sectors cannot be read one by one.
    pub open spec fn read_graph_fault(&self, count: int) -> Option<SectorGraphError> {
        let available = self.max_n_batch_sector_read - self.cur_sector_idx;
        if count > available {
            Some(
                SectorGraphError::TooManySectors {
                    requested: count as usize,
                    available: available as usize,
                },
            )
        } else if self.chunk_len() == 0 {
            Some(
                SectorGraphError::ZeroLength {
                    num_sectors_per_node: self.num_sectors_per_node,
                    block_size: self.block_size,
                },
            )
        } else {
            None
        }
    }

    /// The request that reads a node from `sector` into the chunk `at` after those
    /// already read.
    pub open spec fn chunk_request(&self, sector: u64, at: int) -> ReadRequest {
        ReadRequest {
            offset: (sector * self.block_size) as u64,
            buffer_start: ((self.cur_sector_idx + at) * self.chunk_len()) as usize,
            buffer_len: self.chunk_len() as usize,
        }
    }

    /// What to read for the given sectors: one request each, in their order, into
    /// the buffer behind what was read before.
    pub fn read_graph(&self, sectors_to_fetch: &[u64]) -> (result: Result<
        Vec<ReadRequest>,
        SectorGraphError,
    >)
        requires
            self.wf(),
            forall|at: int|
                0 <= at < sectors_to_fetch@.len() ==> #[trigger] sectors_to_fetch@[at]
                    * self.block_size <= u64::MAX,
        ensures
            match result {
                Ok(requests) => {
                    &&& self.read_graph_fault(sectors_to_fetch@.len() as int) is None
                    &&& requests@.len() == sectors_to_fetch@.len()
                    &&& forall|at: int|
                        0 <= at < requests@.len() ==> #[trigger] requests@[at]
                            == self.chunk_request(sectors_to_fetch@[at], at)
                    &&& forall|at: int|
                        0 <= at < requests@.len() ==> (#[trigger] requests@[at]).buffer_start
                            + requests@[at].buffer_len <= self.sectors_data@.len()
                },
                Err(error) => self.read_graph_fault(sectors_to_fetch@.len() as int) == Some(error),
            },
    {
        let current: usize = self.cur_sector_idx as usize;
        let available: usize = self.max_n_batch_sector_read - current;
        let count: usize = sectors_to_fetch.len();
        if count > available {
            return Err(SectorGraphError::TooManySectors { requested: count, available });
        }
        if self.num_sectors_per_node == 0 || self.block_size == 0 {
            proof {
                assert(self.chunk_len() == 0) by (nonlinear_arith)
                    requires
                        self.num_sectors_per_node == 0 || self.block_size == 0,
                        self.chunk_len() == self.num_sectors_per_node * self.block_size,
                ;
            }
            return Err(
                SectorGraphError::ZeroLength {
                    num_sectors_per_node: self.num_sectors_per_node,
                    block_size: self.block_size,
                },
            );
        }
        let ghost chunk = self.chunk_len();
        proof {
            assert(chunk >= 1) by (nonlinear_arith)
                requires
                    chunk == self.num_sectors_per_node * self.block_size,
                    self.num_sectors_per_node >= 1,
                    self.block_size >= 1,
            ;
            assert(self.sectors_data.len() == self.sectors_data@.len());
        }
        let mut requests: Vec<ReadRequest> = Vec::new();
        if count == 0 {
            return Ok(requests);
        }
        proof {
            let most = self.max_n_batch_sector_read as int;
            assert(chunk <= most * chunk) by (nonlinear_arith)
                requires
                    1 <= most,
                    1 <= chunk,
            ;
        }
        let len_per_node: usize = self.num_sectors_per_node * self.block_size;
        let mut at: usize = 0;
        while at < count
            invariant
                at <= count,
                count == sectors_to_fetch@.len(),
                self.wf(),
                current == self.cur_sector_idx,
                current + count <= self.max_n_batch_sector_read,
                chunk == self.chunk_len(),
                len_per_node == chunk,
                self.sectors_data@.len() <= usize::MAX,
                requests@.len() == at,
                forall|i: int|
                    0 <= i < sectors_to_fetch@.len() ==> #[trigger] sectors_to_fetch@[i]
                        * self.block_size <= u64::MAX,
                forall|i: int|
                    0 <= i < at ==> #[trigger] requests@[i] == self.chunk_request(
                        sectors_to_fetch@[i],
                        i,
                    ),
                forall|i: int|
                    0 <= i < at ==> (#[trigger] requests@[i]).buffer_start
                        + requests@[i].buffer_len <= self.sectors_data@.len(),
            decreases count - at,
        {
            proof {
                let most = self.max_n_batch_sector_read as int;
                let place = current + at;
                assert(0 <= place * chunk && place * chunk + chunk <= most * chunk) by (nonlinear_arith)
                    requires
                        0 <= place < most,
                        0 <= chunk,
                ;
                assert(0 <= sectors_to_fetch@[at as int] * self.block_size) by (nonlinear_arith)
                    requires
                        sectors_to_fetch@[at as int] >= 0,
                        self.block_size >= 0,
                ;
            }
            requests.push(
                ReadRequest {
                    offset: sectors_to_fetch[at] * self.block_size as u64,
                    buffer_start: (current + at) * len_per_node,
                    buffer_len: len_per_node,
                },
            );
            at += 1;
        }
        Ok(requests)
    }

    /// Puts the bytes that were read for a request into the buffer.
    pub fn fill(&mut self, request: &ReadRequest, bytes: &[u8])
        requires
            request.buffer_start + request.buffer_len <= old(self).sectors_data@.len(),
            bytes@.len() == request.buffer_len,
        ensures
            final(self).same_shape(*old(self)),
            final(self).max_n_batch_sector_read == old(self).max_n_batch_sector_read,
            final(self).cur_sector_idx == old(self).cur_sector_idx,
            final(self).loaded_node_locations == old(self).loaded_node_locations,
            final(self).sectors_data@.len() == old(self).sectors_data@.len(),
            forall|at: int|
                0 <= at < final(self).sectors_data@.len() ==> #[trigger] final(self).sectors_data@[at]
                    == if request.buffer_start <= at < request.buffer_start + request.buffer_len {
                    bytes@[at - request.buffer_start]
                } else {
                    old(self).sectors_data@[at]
                },
    {
        assert(request.buffer_start + request.buffer_len <= self.sectors_data.len());
        let mut at: usize = 0;
        while at < request.buffer_len
            invariant
                at <= request.buffer_len,
                bytes@.len() == request.buffer_len,
                request.buffer_start + request.buffer_len <= self.sectors_data@.len(),
                request.buffer_start + request.buffer_len <= usize::MAX,
                self.same_shape(*old(self)),
                self.max_n_batch_sector_read == old(self).max_n_batch_sector_read,
                self.cur_sector_idx == old(self).cur_sector_idx,
                self.loaded_node_locations == old(self).loaded_node_locations,
                self.sectors_data@.len() == old(self).sectors_data@.len(),
                forall|i: int|
                    0 <= i < self.sectors_data@.len() ==> #[trigger] self.sectors_data@[i]
                        == if request.buffer_start <= i < request.buffer_start + at {
                        bytes@[i - request.buffer_start]
                    } else {
                        old(self).sectors_data@[i]
                    },
            decreases request.buffer_len - at,
        {
            self.sectors_data[request.buffer_start + at] = bytes[at];
            at += 1;
        }
    }

    /// Records that `count` more sectors were read.
    pub fn complete_read_graph(&mut self, count: usize)
        requires
            old(self).wf(),
            old(self).cur_sector_idx + count <= old(self).max_n_batch_sector_read,
        ensures
            *final(self) == (DiskSectorGraph {
                cur_sector_idx: (old(self).cur_sector_idx + count) as u64,
                ..*old(self)
            }),
            final(self).wf(),
    {
        self.cur_sector_idx = self.cur_sector_idx + count as u64;
    }

    /// The slot of a node.
    fn physical_slot(&self, vertex_id: u32) -> (result: Result<u32, SectorGraphError>)
        ensures
            result == match self.slot_of(vertex_id) {
                Some(slot) => Ok::<u32, SectorGraphError>(slot),
                None => Err(SectorGraphError::VertexOutsideLayout { vertex_id }),
            },
    {
        match &self.physical_layout {
            Some(layout) => match layout.physical_slot(vertex_id) {
                Some(slot) => Ok(slot),
                None => Err(SectorGraphError::VertexOutsideLayout { vertex_id }),
            },
            None => Ok(vertex_id),
        }
    }

    /// Gets the index for the sector that contains the node with the given vertex_id.
    pub fn node_sector_index(&self, vertex_id: u32) -> (result: Result<u64, SectorGraphError>)
        requires
            self.slot_of(vertex_id) is Some ==> self.sector_of(vertex_id) <= u64::MAX,
        ensures
            result == match self.slot_of(vertex_id) {
                Some(slot) => Ok::<u64, SectorGraphError>(self.sector_of_slot(slot) as u64),
                None => Err(SectorGraphError::VertexOutsideLayout { vertex_id }),
            },
            result is Ok ==> result->Ok_0 == self.sector_of(vertex_id),
    {
        match self.physical_slot(vertex_id) {
            Ok(slot) => {
                assert(0 <= slot * self.num_sectors_per_node) by (nonlinear_arith)
                    requires
                        slot >= 0,
                        self.num_sectors_per_node >= 0,
                ;
                if self.num_nodes_per_sector > 0 {
                    Ok(1 + slot as u64 / self.num_nodes_per_sector)
                } else {
                    Ok(1 + slot as u64 * self.num_sectors_per_node as u64)
                }
            },
            Err(error) => Err(error),
        }
    }

    /// Get offset of node in its sector.
    pub fn get_node_offset(&self, vertex_id: u32) -> (result: Result<usize, SectorGraphError>)
        requires
            self.slot_of(vertex_id) is Some ==> self.offset_of(vertex_id) <= u64::MAX,
        ensures
            result == match self.slot_of(vertex_id) {
                Some(slot) => Ok::<usize, SectorGraphError>(
                    self.offset_of_slot(slot) as u64 as usize,
                ),
                None => Err(SectorGraphError::VertexOutsideLayout { vertex_id }),
            },
    {
        match self.physical_slot(vertex_id) {
            Ok(slot) => {
                if self.num_nodes_per_sector == 0 {
                    Ok(0)
                } else {
                    let within: u64 = slot as u64 % self.num_nodes_per_sector;
                    assert(0 <= within * self.node_len) by (nonlinear_arith)
                        requires
                            within >= 0,
                            self.node_len >= 0,
                    ;
                    Ok((within * self.node_len) as usize)
                }
            },
            Err(error) => Err(error),
        }
    }

    /// Get sector data by local index.
    pub fn get_sector_buf(&self, local_sector_idx: usize) -> (buffer: &[u8])
        requires
            (local_sector_idx + 1) * self.chunk_len() <= self.sectors_data@.len(),
        ensures
            buffer@ == self.sectors_data@.subrange(
                local_sector_idx * self.chunk_len(),
                (local_sector_idx + 1) * self.chunk_len(),
            ),
    {
        let ghost chunk = self.chunk_len();
        proof {
            assert(self.sectors_data.len() == self.sectors_data@.len());
            assert(0 <= chunk) by (nonlinear_arith)
                requires
                    chunk == self.num_sectors_per_node * self.block_size,
                    self.num_sectors_per_node >= 0,
                    self.block_size >= 0,
            ;
            assert(0 <= local_sector_idx * chunk && local_sector_idx * chunk + chunk == (
            local_sector_idx + 1) * chunk) by (nonlinear_arith)
                requires
                    local_sector_idx >= 0,
                    chunk >= 0,
            ;
        }
        let len_per_node: usize = self.num_sectors_per_node * self.block_size;
        let start: usize = local_sector_idx * len_per_node;
        vstd::slice::slice_subrange(self.sectors_data.as_slice(), start, start + len_per_node)
    }

    /// Where in the buffer a node that was read by a mapped read starts.
    pub open spec fn mapped_start(&self, location: LoadedNodeLocation) -> int {
        location.buffer_block_index * self.block_size + location.node_offset
    }

    /// Why the data of a node that was read by a mapped read cannot be had.
    pub open spec fn mapped_fault(&self, node_index_local: usize) -> Option<SectorGraphError> {
        let start = self.mapped_start(self.loaded_node_locations@[node_index_local as int]);
        let end = start + self.node_len as usize;
        if node_index_local >= self.loaded_node_locations@.len() {
            Some(SectorGraphError::NoLocation { node_index_local })
        } else if start > usize::MAX {
            Some(SectorGraphError::NodeOffsetOverflow)
        } else if end > usize::MAX {
            Some(SectorGraphError::NodeEndOverflow)
        } else if end > self.sectors_data@.len() {
            Some(SectorGraphError::NodeOutsideBuffer)
        } else {
            None
        }
    }

    /// Get node data by local index.
    pub fn node_disk_buf(&self, node_index_local: usize, vertex_id: u32) -> (result: Result<
        &[u8],
        SectorGraphError,
    >)
        requires
            self.physical_layout is None ==> {
                &&& (node_index_local + 1) * self.chunk_len() <= self.sectors_data@.len()
                &&& self.offset_of(vertex_id) <= u64::MAX
                &&& self.offset_of(vertex_id) as u64 as usize + self.node_len as usize
                    <= self.chunk_len()
            },
        ensures
            if self.physical_layout is Some {
                let start = self.mapped_start(self.loaded_node_locations@[node_index_local as int]);
                match self.mapped_fault(node_index_local) {
                    Some(fault) => result is Err && result->Err_0 == fault,
                    None => result is Ok && result->Ok_0@ == self.sectors_data@.subrange(
                        start,
                        start + self.node_len as usize,
                    ),
                }
            } else {
                let start = node_index_local * self.chunk_len() + self.offset_of(
                    vertex_id,
                ) as u64 as usize;
                result is Ok && result->Ok_0@ == self.sectors_data@.subrange(
                    start,
                    start + self.node_len as usize,
                )
            },
    {
        let node_len: usize = self.node_len as usize;
        if self.physical_layout.is_some() {
            if node_index_local >= self.loaded_node_locations.len() {
                return Err(SectorGraphError::NoLocation { node_index_local });
            }
            let location: LoadedNodeLocation = self.loaded_node_locations[node_index_local];
            proof {
                assert(0 <= location.buffer_block_index * self.block_size) by (nonlinear_arith)
                    requires
                        location.buffer_block_index >= 0,
                        self.block_size >= 0,
                ;
            }
            let Some(block_start) = location.buffer_block_index.checked_mul(self.block_size) else {
                return Err(SectorGraphError::NodeOffsetOverflow);
            };
            let Some(start) = block_start.checked_add(location.node_offset) else {
                return Err(SectorGraphError::NodeOffsetOverflow);
            };
            let Some(end) = start.checked_add(node_len) else {
                return Err(SectorGraphError::NodeEndOverflow);
            };
            if end > self.sectors_data.len() {
                return Err(SectorGraphError::NodeOutsideBuffer);
            }
            return Ok(vstd::slice::slice_subrange(self.sectors_data.as_slice(), start, end));
        }
        let sector_buf = self.get_sector_buf(node_index_local);
        let node_offset: usize = match self.get_node_offset(vertex_id) {
            Ok(node_offset) => node_offset,
            Err(error) => {
                return Err(error);
            },
        };
        proof {
            let chunk = self.chunk_len();
            assert(node_index_local * chunk + chunk == (node_index_local + 1) * chunk)
                by (nonlinear_arith);
            assert(sector_buf@.len() == chunk);
            assert(sector_buf.len() == chunk);
            let start = node_index_local * chunk + node_offset;
            assert(sector_buf@.subrange(node_offset as int, node_offset + node_len)
                =~= self.sectors_data@.subrange(start, start + node_len));
        }
        Ok(vstd::slice::slice_subrange(sector_buf, node_offset, node_offset + node_len))
    }

    /// The bytes of the buffer.
    pub fn data(&self) -> (data: &[u8])
        ensures
            data@ == self.sectors_data@,
    {
        self.sectors_data.as_slice()
    }
}

/// Bytes of the buffer for a batch of nodes.
fn buffer_len(max_n_batch_sector_read: usize, num_sectors_per_node: usize, block_size: usize) -> (length:
    usize)
    requires
        max_n_batch_sector_read * num_sectors_per_node * block_size <= usize::MAX,
    ensures
        length == max_n_batch_sector_read * (num_sectors_per_node * block_size),
{
    let ghost most = max_n_batch_sector_read as int;
    let ghost sectors = num_sectors_per_node as int;
    let ghost size = block_size as int;
    assert(most * sectors * size == most * (sectors * size)) by (nonlinear_arith);
    if block_size == 0 {
        assert(most * (sectors * size) == 0) by (nonlinear_arith)
            requires
                size == 0,
        ;
        return 0;
    }
    assert(0 <= most * sectors && most * sectors <= most * sectors * size) by (nonlinear_arith)
        requires
            0 <= most,
            0 <= sectors,
            1 <= size,
    ;
    max_n_batch_sector_read * num_sectors_per_node * block_size
}

/// Two increasing lists of the same sectors are one list.
pub proof fn lemma_sector_list_is_unique(left: Seq<u64>, right: Seq<u64>)
    requires
        is_increasing(left),
        is_increasing(right),
        forall|sector: u64| #[trigger] left.contains(sector) <==> right.contains(sector),
    ensures
        left == right,
    decreases left.len(),
{
    if left.len() == 0 {
        if right.len() > 0 {
            assert(right.contains(right[0]));
            assert(left.contains(right[0]));
        }
        assert(left =~= right);
    } else {
        assert(left.contains(left.last()));
        let left_front = left.drop_last();
        let right_front = right.drop_last();
        let place = choose|place: int| 0 <= place < right.len() && right[place] == left.last();
        assert(right.contains(right.last()));
        assert(left.contains(right.last()));
        let other = choose|other: int| 0 <= other < left.len() && left[other] == right.last();
        assert(left.last() == right.last());
        assert forall|sector: u64| #[trigger]
            left_front.contains(sector) <==> right_front.contains(sector) by {
            if left_front.contains(sector) {
                let at = choose|at: int| 0 <= at < left_front.len() && left_front[at] == sector;
                assert(left[at] == sector && left[at] < left.last());
                assert(left.contains(sector));
                let found = choose|found: int| 0 <= found < right.len() && right[found] == sector;
                assert(right_front[found] == sector);
            }
            if right_front.contains(sector) {
                let at = choose|at: int| 0 <= at < right_front.len() && right_front[at] == sector;
                assert(right[at] == sector && right[at] < right.last());
                assert(right.contains(sector));
                assert(left.contains(sector));
                let found = choose|found: int| 0 <= found < left.len() && left[found] == sector;
                assert(left_front[found] == sector);
            }
        }
        lemma_sector_list_is_unique(left_front, right_front);
        assert(left =~= left_front.push(left.last()));
        assert(right =~= right_front.push(right.last()));
    }
}

/// Where `sector` stands in an increasing list, or else where it belongs.
fn find_sector(list: &Vec<u64>, sector: u64) -> (result: (bool, usize))
    requires
        is_increasing(list@),
    ensures
        result.1 <= list@.len(),
        forall|at: int| 0 <= at < result.1 ==> #[trigger] list@[at] < sector,
        forall|at: int| result.1 <= at < list@.len() ==> #[trigger] list@[at] >= sector,
        result.0 == (result.1 < list@.len() && list@[result.1 as int] == sector),
        result.0 == list@.contains(sector),
{
    let mut low: usize = 0;
    let mut high: usize = list.len();
    while low < high
        invariant
            low <= high <= list@.len(),
            is_increasing(list@),
            forall|at: int| 0 <= at < low ==> #[trigger] list@[at] < sector,
            forall|at: int| high <= at < list@.len() ==> #[trigger] list@[at] >= sector,
        decreases high - low,
    {
        let middle: usize = low + (high - low) / 2;
        if list[middle] < sector {
            low = middle + 1;
        } else {
            high = middle;
        }
    }
    let found: bool = low < list.len() && list[low] == sector;
    proof {
        if list@.contains(sector) {
            let at = choose|at: int| 0 <= at < list@.len() && list@[at] == sector;
            assert(list@[at] == sector);
            assert(at >= low);
            if at > low {
                assert(list@[low as int] < list@[at]);
            }
        }
    }
    (found, low)
}

/// Puts a sector into an increasing list, unless it is there.
fn insert_sector(list: &mut Vec<u64>, sector: u64)
    requires
        is_increasing(old(list)@),
    ensures
        is_increasing(final(list)@),
        forall|other: u64| #[trigger]
            final(list)@.contains(other) <==> old(list)@.contains(other) || other == sector,
{
    let ghost before = list@;
    let (found, at) = find_sector(list, sector);
    if !found {
        list.insert(at, sector);
        proof {
            let after = list@;
            assert forall|i: int, j: int| 0 <= i < j < after.len() implies after[i] < after[j] by {
                if j < at {
                    assert(before[i] < before[j]);
                } else if j == at {
                    assert(before[i] < sector);
                } else if i < at {
                    assert(before[i] < sector && before[j - 1] >= sector);
                } else if i == at {
                    assert(before[j - 1] >= sector);
                    if before[j - 1] == sector {
                        assert(before.contains(sector));
                    }
                } else {
                    assert(before[i - 1] < before[j - 1]);
                }
            }
            assert forall|other: u64| #[trigger]
                after.contains(other) <==> before.contains(other) || other == sector by {
                if before.contains(other) {
                    let place = choose|place: int|
                        0 <= place < before.len() && before[place] == other;
                    if place < at {
                        assert(after[place] == other);
                    } else {
                        assert(after[place + 1] == other);
                    }
                }
                if other == sector {
                    assert(after[at as int] == other);
                }
                if after.contains(other) && other != sector {
                    let place = choose|place: int| 0 <= place < after.len() && after[place] == other;
                    if place < at {
                        assert(before[place] == other);
                    } else {
                        assert(before[place - 1] == other);
                    }
                }
            }
        }
    }
}

/// Room for `count` locations: those that were noted before, and empty ones.
pub open spec fn resized(locations: Seq<LoadedNodeLocation>, count: nat) -> Seq<
    LoadedNodeLocation,
> {
    Seq::new(
        count,
        |at: int|
            if at < locations.len() {
                locations[at]
            } else {
                LoadedNodeLocation { buffer_block_index: 0, node_offset: 0 }
            },
    )
}

impl DiskSectorGraph {
    /// The end of the sectors of a node; no sector lies beyond `u64::MAX`.
    pub open spec fn sector_end(&self, vertex_id: u32) -> int {
        let end = self.sector_of(vertex_id) + self.num_sectors_per_node;
        if end < u64::MAX {
            end
        } else {
            u64::MAX as int
        }
    }

    /// `sector` belongs to node `vertex_id`.
    pub open spec fn holds_node(&self, vertex_id: u32, sector: u64) -> bool {
        self.sector_of(vertex_id) <= sector < self.sector_end(vertex_id)
    }

    /// `sector` belongs to one of the nodes.
    pub open spec fn is_needed(&self, vertex_ids: Seq<u32>, sector: u64) -> bool {
        exists|at: int|
            0 <= at < vertex_ids.len() && #[trigger] self.holds_node(vertex_ids[at], sector)
    }

    /// `list` holds the sectors of the nodes, each once, in increasing order.
    pub open spec fn is_sector_list(&self, vertex_ids: Seq<u32>, list: Seq<u64>) -> bool {
        &&& is_increasing(list)
        &&& forall|sector: u64| #[trigger]
            list.contains(sector) <==> self.is_needed(vertex_ids, sector)
    }

    /// The sectors of the nodes, each once, in increasing order.
    pub open spec fn sector_list(&self, vertex_ids: Seq<u32>) -> Seq<u64> {
        choose|list: Seq<u64>| self.is_sector_list(vertex_ids, list)
    }

    /// The first node without a slot.
    pub open spec fn first_outside(&self, vertex_ids: Seq<u32>) -> Option<u32>
        decreases vertex_ids.len(),
    {
        if vertex_ids.len() == 0 {
            None
        } else {
            match self.first_outside(vertex_ids.drop_last()) {
                Some(vertex_id) => Some(vertex_id),
                None => if self.slot_of(vertex_ids.last()) is None {
                    Some(vertex_ids.last())
                } else {
                    None
                },
            }
        }
    }

    /// The first sector of some node is not needed.
    pub open spec fn start_missing(&self, vertex_ids: Seq<u32>) -> bool {
        exists|at: int|
            0 <= at < vertex_ids.len() && !self.is_needed(
                vertex_ids,
                self.sector_of(#[trigger] vertex_ids[at]) as u64,
            )
    }

    /// Why nodes cannot be read where a layout puts them.
    pub open spec fn mapped_read_fault(&self, vertex_ids: Seq<u32>) -> Option<SectorGraphError> {
        let bytes = self.sector_list(vertex_ids).len() * self.block_size;
        if vertex_ids.len() > self.max_n_batch_sector_read {
            Some(
                SectorGraphError::TooManyVertices {
                    requested: vertex_ids.len() as usize,
                    max: self.max_n_batch_sector_read,
                },
            )
        } else if self.first_outside(vertex_ids) is Some {
            Some(
                SectorGraphError::VertexOutsideLayout {
                    vertex_id: self.first_outside(vertex_ids)->0,
                },
            )
        } else if self.start_missing(vertex_ids) {
            Some(SectorGraphError::SectorMissing)
        } else if bytes > u64::MAX {
            Some(SectorGraphError::ByteCountOverflow)
        } else if bytes > usize::MAX {
            Some(SectorGraphError::BufferSizeOverflow)
        } else if bytes > self.sectors_data@.len() {
            Some(
                SectorGraphError::PlanExceedsBuffer {
                    required: bytes as usize,
                    available: self.sectors_data@.len() as usize,
                },
            )
        } else {
            None
        }
    }

    /// Each node is found at its sector among those read.
    pub open spec fn locates(&self, vertex_ids: Seq<u32>, list: Seq<u64>) -> bool {
        &&& self.loaded_node_locations@.len() == vertex_ids.len()
        &&& forall|at: int|
            0 <= at < vertex_ids.len() ==> self.is_location(
                #[trigger] self.loaded_node_locations@[at],
                vertex_ids[at],
                list,
            )
    }

    /// Node `count` is the first whose sector is not needed.
    pub open spec fn is_first_missing(&self, vertex_ids: Seq<u32>, count: int) -> bool {
        &&& 0 <= count < vertex_ids.len()
        &&& !self.is_needed(vertex_ids, self.sector_of(vertex_ids[count]) as u64)
        &&& forall|at: int|
            0 <= at < count ==> self.is_needed(
                vertex_ids,
                self.sector_of(#[trigger] vertex_ids[at]) as u64,
            )
    }

    /// The first `count` nodes are found at their sectors among those to read, and the
    /// other locations are those of `before`.
    pub open spec fn locates_first(
        &self,
        before: Self,
        vertex_ids: Seq<u32>,
        list: Seq<u64>,
        count: int,
    ) -> bool {
        let room = resized(before.loaded_node_locations@, vertex_ids.len());
        &&& self.loaded_node_locations@.len() == vertex_ids.len()
        &&& forall|at: int|
            0 <= at < count ==> self.is_location(
                #[trigger] self.loaded_node_locations@[at],
                vertex_ids[at],
                list,
            )
        &&& forall|at: int|
            count <= at < vertex_ids.len() ==> #[trigger] self.loaded_node_locations@[at]
                == room[at]
    }

    /// `location` is that of a node among the sectors of `list`.
    pub open spec fn is_location(
        &self,
        location: LoadedNodeLocation,
        vertex_id: u32,
        list: Seq<u64>,
    ) -> bool {
        &&& location.buffer_block_index < list.len()
        &&& list[location.buffer_block_index as int] == self.sector_of(vertex_id)
        &&& location.node_offset == self.offset_of(vertex_id) as u64 as usize
    }

    /// The sectors that have to be read for the nodes.
    fn collect_sectors(&self, vertex_ids: &[u32]) -> (result: Result<Vec<u64>, SectorGraphError>)
        requires
            forall|at: int|
                0 <= at < vertex_ids@.len() ==> self.node_fits(#[trigger] vertex_ids@[at]),
        ensures
            match result {
                Ok(list) => self.first_outside(vertex_ids@) is None && self.is_sector_list(
                    vertex_ids@,
                    list@,
                ),
                Err(error) => self.first_outside(vertex_ids@) is Some && error
                    == (SectorGraphError::VertexOutsideLayout {
                    vertex_id: self.first_outside(vertex_ids@)->0,
                }),
            },
    {
        let mut list: Vec<u64> = Vec::new();
        let mut at: usize = 0;
        proof {
            assert forall|sector: u64| #[trigger]
                list@.contains(sector) <==> self.is_needed(vertex_ids@.take(0), sector) by {}
        }
        while at < vertex_ids.len()
            invariant
                at <= vertex_ids@.len(),
                forall|at: int|
                    0 <= at < vertex_ids@.len() ==> self.node_fits(#[trigger] vertex_ids@[at]),
                self.first_outside(vertex_ids@.take(at as int)) is None,
                self.is_sector_list(vertex_ids@.take(at as int), list@),
            decreases vertex_ids@.len() - at,
        {
            let vertex_id: u32 = vertex_ids[at];
            let ghost taken = vertex_ids@.take(at as int);
            let ghost grown = vertex_ids@.take(at + 1);
            assert(grown.drop_last() =~= taken);
            assert(grown =~= taken.push(vertex_id));
            let start: u64 = match self.node_sector_index(vertex_id) {
                Ok(start) => start,
                Err(error) => {
                    proof {
                        self.lemma_outside_stays(vertex_ids@, at + 1);
                    }
                    return Err(error);
                },
            };
            let end: u64 = start.saturating_add(self.num_sectors_per_node as u64);
            assert(start == self.sector_of(vertex_id));
            assert(end == self.sector_end(vertex_id));
            let ghost before = list@;
            let mut sector: u64 = start;
            while sector < end
                invariant
                    start <= sector,
                    start <= end,
                    sector <= end,
                    is_increasing(list@),
                    forall|other: u64| #[trigger]
                        list@.contains(other) <==> before.contains(other) || start <= other
                            < sector,
                decreases end - sector,
            {
                insert_sector(&mut list, sector);
                sector += 1;
            }
            proof {
                assert forall|other: u64| #[trigger]
                    list@.contains(other) <==> self.is_needed(grown, other) by {
                    assert(before.contains(other) <==> self.is_needed(taken, other));
                    if self.is_needed(taken, other) {
                        let i = choose|i: int|
                            0 <= i < taken.len() && #[trigger] self.holds_node(taken[i], other);
                        assert(self.holds_node(grown[i], other));
                    }
                    if start <= other < end {
                        assert(self.holds_node(grown[at as int], other));
                    }
                    if self.is_needed(grown, other) && !(start <= other < end) {
                        let i = choose|i: int|
                            0 <= i < grown.len() && #[trigger] self.holds_node(grown[i], other);
                        assert(i < taken.len());
                        assert(self.holds_node(taken[i], other));
                    }
                }
            }
            at += 1;
        }
        assert(vertex_ids@.take(at as int) =~= vertex_ids@);
        Ok(list)
    }

    /// The first node without a slot stays the first.
    proof fn lemma_outside_stays(&self, vertex_ids: Seq<u32>, count: int)
        requires
            0 <= count <= vertex_ids.len(),
            self.first_outside(vertex_ids.take(count)) is Some,
        ensures
            self.first_outside(vertex_ids) == self.first_outside(vertex_ids.take(count)),
        decreases vertex_ids.len() - count,
    {
        if count < vertex_ids.len() {
            assert(vertex_ids.take(count + 1).drop_last() =~= vertex_ids.take(count));
            self.lemma_outside_stays(vertex_ids, count + 1);
        } else {
            assert(vertex_ids.take(count) =~= vertex_ids);
        }
    }

    /// Every node has a slot if none is the first without one.
    proof fn lemma_all_inside(&self, vertex_ids: Seq<u32>, at: int)
        requires
            self.first_outside(vertex_ids) is None,
            0 <= at < vertex_ids.len(),
        ensures
            self.slot_of(vertex_ids[at]) is Some,
        decreases vertex_ids.len(),
    {
        if at < vertex_ids.len() - 1 {
            self.lemma_all_inside(vertex_ids.drop_last(), at);
        }
    }

    /// Notes where each node is among the sectors of `list`, or tells that the
    /// sector of a node is not in it.
    fn locate_nodes(&mut self, vertex_ids: &[u32], list: &Vec<u64>) -> (located: bool)
        requires
            old(self).first_outside(vertex_ids@) is None,
            old(self).is_sector_list(vertex_ids@, list@),
            forall|at: int|
                0 <= at < vertex_ids@.len() ==> old(self).node_fits(#[trigger] vertex_ids@[at]),
        ensures
            *final(self) == (DiskSectorGraph {
                loaded_node_locations: final(self).loaded_node_locations,
                ..*old(self)
            }),
            located == !old(self).start_missing(vertex_ids@),
            located ==> final(self).locates(vertex_ids@, list@),
            !located ==> exists|count: int| #[trigger]
                old(self).is_first_missing(vertex_ids@, count) && final(self).locates_first(
                    *old(self),
                    vertex_ids@,
                    list@,
                    count,
                ),
    {
        self.resize_locations(vertex_ids.len());
        let mut at: usize = 0;
        while at < vertex_ids.len()
            invariant
                at <= vertex_ids@.len(),
                *self == (DiskSectorGraph {
                    loaded_node_locations: self.loaded_node_locations,
                    ..*old(self)
                }),
                old(self).first_outside(vertex_ids@) is None,
                old(self).is_sector_list(vertex_ids@, list@),
                forall|at: int|
                    0 <= at < vertex_ids@.len() ==> old(self).node_fits(#[trigger] vertex_ids@[at]),
                self.locates_first(*old(self), vertex_ids@, list@, at as int),
                forall|i: int|
                    0 <= i < at ==> old(self).is_needed(
                        vertex_ids@,
                        old(self).sector_of(#[trigger] vertex_ids@[i]) as u64,
                    ),
            decreases vertex_ids@.len() - at,
        {
            let vertex_id: u32 = vertex_ids[at];
            proof {
                old(self).lemma_all_inside(vertex_ids@, at as int);
                assert(old(self).node_fits(vertex_ids@[at as int]));
            }
            let (start, node_offset): (u64, usize) = match (
                self.node_sector_index(vertex_id),
                self.get_node_offset(vertex_id),
            ) {
                (Ok(start), Ok(node_offset)) => (start, node_offset),
                _ => (0, 0),
            };
            let (found, buffer_block_index) = find_sector(list, start);
            if !found {
                assert(!old(self).is_needed(
                    vertex_ids@,
                    old(self).sector_of(vertex_ids@[at as int]) as u64,
                ));
                assert(old(self).is_first_missing(vertex_ids@, at as int));
                return false;
            }
            let ghost before = self.loaded_node_locations@;
            self.loaded_node_locations[at] = LoadedNodeLocation { buffer_block_index, node_offset };
            proof {
                assert forall|i: int| 0 <= i < at + 1 implies self.is_location(
                    #[trigger] self.loaded_node_locations@[i],
                    vertex_ids@[i],
                    list@,
                ) by {
                    if i < at {
                        assert(before[i] == self.loaded_node_locations@[i]);
                    }
                }
            }
            at += 1;
        }
        true
    }

    /// Makes room for the locations of `count` nodes.
    fn resize_locations(&mut self, count: usize)
        ensures
            *final(self) == (DiskSectorGraph {
                loaded_node_locations: final(self).loaded_node_locations,
                ..*old(self)
            }),
            final(self).loaded_node_locations@ == resized(
                old(self).loaded_node_locations@,
                count as nat,
            ),
    {
        let ghost before = self.loaded_node_locations@;
        if count < self.loaded_node_locations.len() {
            self.loaded_node_locations.truncate(count);
        }
        while self.loaded_node_locations.len() < count
            invariant
                *self == (DiskSectorGraph {
                    loaded_node_locations: self.loaded_node_locations,
                    ..*old(self)
                }),
                self.loaded_node_locations@.len() <= count,
                self.loaded_node_locations@ == resized(before, self.loaded_node_locations@.len()),
                before.len() <= count ==> before.len() <= self.loaded_node_locations@.len(),
                before.len() > count ==> self.loaded_node_locations@.len() == count,
            decreases count - self.loaded_node_locations@.len(),
        {
            self.loaded_node_locations.push(
                LoadedNodeLocation { buffer_block_index: 0, node_offset: 0 },
            );
        }
    }
}

/// One request for every longest run of consecutive sectors.
fn coalesce(list: &Vec<u64>, block_size: usize) -> (requests: Vec<ReadRequest>)
    requires
        is_increasing(list@),
        list@.len() * block_size <= usize::MAX,
        forall|at: int| 0 <= at < list@.len() ==> #[trigger] list@[at] * block_size <= u64::MAX,
    ensures
        requests@ == run_requests(list@, block_size as int, 0),
{
    let ghost size = block_size as int;
    let ghost total = run_requests(list@, size, 0);
    let mut requests: Vec<ReadRequest> = Vec::new();
    if list.len() == 0 {
        assert(requests@ =~= total);
        return requests;
    }
    let mut range_start: usize = 0;
    let mut index: usize = 1;
    assert(requests@ + run_requests(list@, size, 0) =~= total);
    while index <= list.len() && range_start < list.len()
        invariant
            is_increasing(list@),
            size == block_size,
            list@.len() * block_size <= usize::MAX,
            list@.len() <= usize::MAX,
            list@.len() > 0,
            forall|at: int| 0 <= at < list@.len() ==> #[trigger] list@[at] * block_size <= u64::MAX,
            range_start <= list@.len(),
            range_start < list@.len() ==> range_start < index <= list@.len(),
            range_start < list@.len() ==> run_end(list@, range_start + 1) == run_end(
                list@,
                index as int,
            ),
            requests@ + run_requests(list@, size, range_start as int) == total,
        decreases list@.len() - range_start, list@.len() - index,
    {
        if index == list.len() || list[index] != list[index - 1] + 1 {
            proof {
                let from = range_start as int;
                let to = index as int;
                let count = list@.len() as int;
                assert(0 <= from * size && from * size <= count * size && 0 <= (to - from) * size
                    && (to - from) * size <= count * size) by (nonlinear_arith)
                    requires
                        0 <= from < to,
                        to <= count,
                        0 <= size,
                ;
                assert(0 <= list@[from] * size) by (nonlinear_arith)
                    requires
                        list@[from] >= 0,
                        size >= 0,
                ;
                assert(list@[from] * block_size <= u64::MAX);
                assert(run_end(list@, from + 1) == to);
            }
            let ghost done = requests@;
            let request = ReadRequest {
                offset: list[range_start] * block_size as u64,
                buffer_start: range_start * block_size,
                buffer_len: (index - range_start) * block_size,
            };
            requests.push(request);
            proof {
                assert(run_requests(list@, size, range_start as int) == seq![request]
                    + run_requests(list@, size, index as int));
                assert(requests@ + run_requests(list@, size, index as int) =~= total);
            }
            range_start = index;
            if index < list.len() {
                index += 1;
            }
        } else {
            index += 1;
        }
    }
    assert(requests@ =~= total);
    requests
}

impl DiskSectorGraph {
    /// What to read for a batch of nodes.
    ///
    /// Without a layout every node is read by itself, behind what was read before.
    /// With a layout every sector is read once, into the buffer in increasing
    /// order, and adjacent sectors by one request.
    pub fn read_vertices(&mut self, vertex_ids: &[u32]) -> (result: Result<
        ReadPlan,
        SectorGraphError,
    >)
        requires
            old(self).wf(),
            forall|at: int|
                0 <= at < vertex_ids@.len() ==> old(self).node_fits(#[trigger] vertex_ids@[at]),
            old(self).physical_layout is None ==> forall|at: int|
                0 <= at < vertex_ids@.len() ==> old(self).sector_of(#[trigger] vertex_ids@[at])
                    * old(self).block_size <= u64::MAX,
            old(self).physical_layout is Some ==> forall|sector: u64| #[trigger]
                old(self).is_needed(vertex_ids@, sector) ==> sector * old(self).block_size
                    <= u64::MAX,
        ensures
            *final(self) == (DiskSectorGraph {
                loaded_node_locations: final(self).loaded_node_locations,
                ..*old(self)
            }),
            if old(self).physical_layout is None {
                &&& *final(self) == *old(self)
                &&& match result {
                    Ok(plan) => {
                        &&& old(self).read_graph_fault(vertex_ids@.len() as int) is None
                        &&& plan.requests@.len() == vertex_ids@.len()
                        &&& forall|at: int|
                            0 <= at < vertex_ids@.len() ==> #[trigger] plan.requests@[at]
                                == old(self).chunk_request(
                                old(self).sector_of(vertex_ids@[at]) as u64,
                                at,
                            )
                        &&& plan.blocks_read == vertex_ids@.len() * old(self).num_sectors_per_node
                        &&& plan.bytes_read == plan.blocks_read * old(self).block_size
                        &&& plan.sectors_advanced == vertex_ids@.len()
                    },
                    Err(error) => old(self).read_graph_fault(vertex_ids@.len() as int) == Some(
                        error,
                    ),
                }
            } else {
                let list = old(self).sector_list(vertex_ids@);
                match result {
                    Ok(plan) => {
                        &&& old(self).mapped_read_fault(vertex_ids@) is None
                        &&& old(self).is_sector_list(vertex_ids@, list)
                        &&& final(self).locates(vertex_ids@, list)
                        &&& plan.requests@ == run_requests(list, old(self).block_size as int, 0)
                        &&& plan.blocks_read == list.len()
                        &&& plan.bytes_read == list.len() * old(self).block_size
                        &&& plan.sectors_advanced == 0
                    },
                    Err(error) => {
                        &&& old(self).mapped_read_fault(vertex_ids@) == Some(error)
                        &&& error is TooManyVertices || error is VertexOutsideLayout
                            ==> *final(self) == *old(self)
                        &&& error is SectorMissing ==> exists|count: int| #[trigger]
                            old(self).is_first_missing(vertex_ids@, count)
                                && final(self).locates_first(
                                *old(self),
                                vertex_ids@,
                                list,
                                count,
                            )
                        &&& error is ByteCountOverflow || error is BufferSizeOverflow
                            || error is PlanExceedsBuffer ==> final(self).locates(vertex_ids@, list)
                    },
                }
            },
    {
        if self.physical_layout.is_none() {
            return self.read_unmapped(vertex_ids);
        }
        if vertex_ids.len() > self.max_n_batch_sector_read {
            return Err(
                SectorGraphError::TooManyVertices {
                    requested: vertex_ids.len(),
                    max: self.max_n_batch_sector_read,
                },
            );
        }
        let list = match self.collect_sectors(vertex_ids) {
            Ok(list) => list,
            Err(error) => {
                return Err(error);
            },
        };
        proof {
            lemma_sector_list_is_unique(list@, self.sector_list(vertex_ids@));
            assert(list@ == self.sector_list(vertex_ids@));
        }
        if !self.locate_nodes(vertex_ids, &list) {
            return Err(SectorGraphError::SectorMissing);
        }
        let blocks_read: u64 = list.len() as u64;
        let Some(bytes_read) = blocks_read.checked_mul(self.block_size as u64) else {
            return Err(SectorGraphError::ByteCountOverflow);
        };
        let Some(required) = list.len().checked_mul(self.block_size) else {
            return Err(SectorGraphError::BufferSizeOverflow);
        };
        if required > self.sectors_data.len() {
            return Err(
                SectorGraphError::PlanExceedsBuffer {
                    required,
                    available: self.sectors_data.len(),
                },
            );
        }
        proof {
            assert forall|at: int| 0 <= at < list@.len() implies #[trigger] list@[at]
                * self.block_size <= u64::MAX by {
                assert(list@.contains(list@[at]));
                assert(old(self).is_needed(vertex_ids@, list@[at]));
            }
        }
        let requests = coalesce(&list, self.block_size);
        Ok(ReadPlan { requests, blocks_read, bytes_read, sectors_advanced: 0 })
    }

    /// What to read for a batch of nodes without a layout.
    fn read_unmapped(&self, vertex_ids: &[u32]) -> (result: Result<ReadPlan, SectorGraphError>)
        requires
            self.wf(),
            self.physical_layout is None,
            forall|at: int|
                0 <= at < vertex_ids@.len() ==> self.node_fits(#[trigger] vertex_ids@[at]),
            forall|at: int|
                0 <= at < vertex_ids@.len() ==> self.sector_of(#[trigger] vertex_ids@[at])
                    * self.block_size <= u64::MAX,
        ensures
            match result {
                Ok(plan) => {
                    &&& self.read_graph_fault(vertex_ids@.len() as int) is None
                    &&& plan.requests@.len() == vertex_ids@.len()
                    &&& forall|at: int|
                        0 <= at < vertex_ids@.len() ==> #[trigger] plan.requests@[at]
                            == self.chunk_request(self.sector_of(vertex_ids@[at]) as u64, at)
                    &&& plan.blocks_read == vertex_ids@.len() * self.num_sectors_per_node
                    &&& plan.bytes_read == plan.blocks_read * self.block_size
                    &&& plan.sectors_advanced == vertex_ids@.len()
                },
                Err(error) => self.read_graph_fault(vertex_ids@.len() as int) == Some(error),
            },
    {
        let mut sectors: Vec<u64> = Vec::new();
        let mut at: usize = 0;
        while at < vertex_ids.len()
            invariant
                at <= vertex_ids@.len(),
                self.physical_layout is None,
                forall|at: int|
                    0 <= at < vertex_ids@.len() ==> self.node_fits(#[trigger] vertex_ids@[at]),
                sectors@.len() == at,
                forall|i: int|
                    0 <= i < at ==> #[trigger] sectors@[i] == self.sector_of(vertex_ids@[i]),
            decreases vertex_ids@.len() - at,
        {
            assert(self.node_fits(vertex_ids@[at as int]));
            match self.node_sector_index(vertex_ids[at]) {
                Ok(sector) => {
                    sectors.push(sector);
                },
                Err(error) => {
                    return Err(error);
                },
            }
            at += 1;
        }
        let count: usize = vertex_ids.len();
        proof {
            assert forall|i: int| 0 <= i < sectors@.len() implies #[trigger] sectors@[i]
                * self.block_size <= u64::MAX by {
                assert(self.sector_of(vertex_ids@[i]) * self.block_size <= u64::MAX);
            }
        }
        let requests = match self.read_graph(sectors.as_slice()) {
            Ok(requests) => requests,
            Err(error) => {
                return Err(error);
            },
        };
        proof {
            let nodes = count as int;
            let per_node = self.num_sectors_per_node as int;
            let size = self.block_size as int;
            let most = self.max_n_batch_sector_read as int;
            assert(self.sectors_data.len() == self.sectors_data@.len());
            assert(nodes * (per_node * size) <= most * (per_node * size)) by (nonlinear_arith)
                requires
                    0 <= nodes <= most,
                    0 <= per_node,
                    0 <= size,
            ;
            assert((nodes * per_node) * size == nodes * (per_node * size)) by (nonlinear_arith);
            assert(size >= 1) by (nonlinear_arith)
                requires
                    per_node * size != 0,
                    size >= 0,
            ;
            assert(0 <= nodes * per_node && nodes * per_node <= (nodes * per_node) * size)
                by (nonlinear_arith)
                requires
                    0 <= nodes,
                    0 <= per_node,
                    1 <= size,
            ;
        }
        let blocks_read: u64 = (count * self.num_sectors_per_node) as u64;
        Ok(
            ReadPlan {
                requests,
                blocks_read,
                bytes_read: blocks_read * self.block_size as u64,
                sectors_advanced: count,
            },
        )
    }

    /// Records that a plan was carried out, and tells what that took.
    pub fn complete_read(&mut self, plan: &ReadPlan) -> (result: Result<
        PhysicalReadMetrics,
        SectorGraphError,
    >)
        requires
            old(self).wf(),
            old(self).cur_sector_idx + plan.sectors_advanced <= old(self).max_n_batch_sector_read,
        ensures
            *final(self) == (DiskSectorGraph {
                cur_sector_idx: (old(self).cur_sector_idx + plan.sectors_advanced) as u64,
                ..*old(self)
            }),
            final(self).wf(),
            result == if plan.requests@.len() > u32::MAX {
                Err::<PhysicalReadMetrics, SectorGraphError>(SectorGraphError::RequestCountOverflow)
            } else {
                Ok(
                    (PhysicalReadMetrics {
                        read_requests: plan.requests@.len() as u32,
                        blocks_read: plan.blocks_read,
                        bytes_read: plan.bytes_read,
                    }),
                )
            },
    {
        self.complete_read_graph(plan.sectors_advanced);
        let count: u64 = plan.requests.len() as u64;
        if count > u32::MAX as u64 {
            return Err(SectorGraphError::RequestCountOverflow);
        }
        Ok(
            PhysicalReadMetrics {
                read_requests: count as u32,
                blocks_read: plan.blocks_read,
                bytes_read: plan.bytes_read,
            },
        )
    }
}

/// The bytes of `file` that a request asks for are in the buffer.
pub open spec fn was_read(buffer: Seq<u8>, file: Seq<u8>, request: ReadRequest) -> bool {
    &&& request.offset + request.buffer_len <= file.len()
    &&& request.buffer_start + request.buffer_len <= buffer.len()
    &&& buffer.subrange(
        request.buffer_start as int,
        request.buffer_start + request.buffer_len,
    ) == file.subrange(request.offset as int, request.offset + request.buffer_len)
}

/// Block `at` of the buffer is the sector `list[at]` of `file`.
pub open spec fn sector_read(
    buffer: Seq<u8>,
    file: Seq<u8>,
    list: Seq<u64>,
    block_size: int,
    at: int,
) -> bool {
    let start = at * block_size;
    let offset = list[at] * block_size;
    &&& 0 <= start
    &&& 0 <= offset
    &&& start + block_size <= buffer.len()
    &&& offset + block_size <= file.len()
    &&& buffer.subrange(start, start + block_size) == file.subrange(offset, offset + block_size)
}

/// Once the requests for an increasing list of sectors were carried out, every
/// sector of the list is in its block of the buffer.
pub proof fn lemma_requests_read_sectors(
    buffer: Seq<u8>,
    file: Seq<u8>,
    list: Seq<u64>,
    block_size: int,
    from: int,
    at: int,
)
    requires
        0 <= from <= at < list.len(),
        0 < block_size,
        list.len() * block_size <= usize::MAX,
        forall|i: int| 0 <= i < list.len() ==> #[trigger] list[i] * block_size <= u64::MAX,
        forall|i: int|
            0 <= i < run_requests(list, block_size, from).len() ==> was_read(
                buffer,
                file,
                #[trigger] run_requests(list, block_size, from)[i],
            ),
    ensures
        sector_read(buffer, file, list, block_size, at),
    decreases list.len() - from,
{
    lemma_run_end(list, from + 1);
    let to = run_end(list, from + 1);
    let request = run_request(list, block_size, from, to);
    let all = run_requests(list, block_size, from);
    let rest = run_requests(list, block_size, to);
    assert(all == seq![request] + rest);
    if at >= to {
        assert forall|i: int| 0 <= i < rest.len() implies was_read(
            buffer,
            file,
            #[trigger] rest[i],
        ) by {
            assert(all[i + 1] == rest[i]);
        }
        lemma_requests_read_sectors(buffer, file, list, block_size, to, at);
    } else {
        assert(all[0] == request);
        assert(was_read(buffer, file, all[0]));
        let count = list.len() as int;
        assert(list[from] * block_size <= u64::MAX);
        let first = list[from] as int;
        assert(0 <= from * block_size && from * block_size <= count * block_size && 0 <= (to - from)
            * block_size && (to - from) * block_size <= count * block_size && 0 <= first
            * block_size) by (nonlinear_arith)
            requires
                0 <= from < to,
                to <= count,
                0 < block_size,
                0 <= first,
        ;
        let inner = (at - from) * block_size;
        assert(list[at] == first + (at - from));
        assert(0 <= inner && inner + block_size <= (to - from) * block_size && at * block_size
            == from * block_size + inner && (first + (at - from)) * block_size == first * block_size
            + inner) by (nonlinear_arith)
            requires
                inner == (at - from) * block_size,
                from <= at < to,
                0 < block_size,
        ;
        let start = at * block_size;
        let offset = list[at] * block_size;
        let whole = (to - from) * block_size;
        let left = buffer.subrange(from * block_size, from * block_size + whole);
        let right = file.subrange(first * block_size, first * block_size + whole);
        assert(left == right);
        assert(buffer.subrange(start, start + block_size) =~= left.subrange(
            inner,
            inner + block_size,
        ));
        assert(file.subrange(offset, offset + block_size) =~= right.subrange(
            inner,
            inner + block_size,
        ));
    }
}

impl DiskSectorGraph {
    /// The sectors of a node stand next to each other in the list.
    proof fn lemma_node_sectors_adjacent(
        &self,
        vertex_ids: Seq<u32>,
        list: Seq<u64>,
        node: int,
        first: int,
        count: int,
    )
        requires
            self.is_sector_list(vertex_ids, list),
            0 <= node < vertex_ids.len(),
            0 <= first < list.len(),
            list[first] == self.sector_of(vertex_ids[node]),
            self.sector_of(vertex_ids[node]) + self.num_sectors_per_node <= u64::MAX,
            0 <= count < self.num_sectors_per_node,
        ensures
            first + count < list.len(),
            list[first + count] == list[first] + count,
        decreases count,
    {
        if count > 0 {
            self.lemma_node_sectors_adjacent(vertex_ids, list, node, first, count - 1);
            let sector = (list[first] + count) as u64;
            assert(self.holds_node(vertex_ids[node], sector));
            assert(list.contains(sector));
            let at = choose|at: int| 0 <= at < list.len() && list[at] == sector;
            let before = first + count - 1;
            assert(list[before] + 1 == sector);
            if at <= before {
                if at < before {
                    assert(list[at] < list[before]);
                }
            } else if at > before + 1 {
                assert(list[before] < list[before + 1] && list[before + 1] < list[at]);
            }
        }
    }

    /// Once the plan of a mapped read was carried out on a file, the data of each
    /// node are those that the file holds at the node's sector and offset.
    pub proof fn lemma_mapped_read_gives_nodes(
        &self,
        vertex_ids: Seq<u32>,
        list: Seq<u64>,
        file: Seq<u8>,
        node: int,
    )
        requires
            self.physical_layout is Some,
            self.is_sector_list(vertex_ids, list),
            self.locates(vertex_ids, list),
            0 < self.block_size,
            list.len() * self.block_size <= usize::MAX,
            forall|i: int| 0 <= i < list.len() ==> #[trigger] list[i] * self.block_size <= u64::MAX,
            forall|i: int|
                0 <= i < run_requests(list, self.block_size as int, 0).len() ==> was_read(
                    self.sectors_data@,
                    file,
                    #[trigger] run_requests(list, self.block_size as int, 0)[i],
                ),
            self.sectors_data@.len() <= usize::MAX,
            0 <= node < vertex_ids.len(),
            node <= usize::MAX,
            self.sector_of(vertex_ids[node]) + self.num_sectors_per_node <= u64::MAX,
            0 <= self.offset_of(vertex_ids[node]),
            0 < self.node_len,
            self.offset_of(vertex_ids[node]) + self.node_len <= self.chunk_len() <= usize::MAX,
        ensures
            ({
                let start = self.mapped_start(self.loaded_node_locations@[node]);
                let offset = self.sector_of(vertex_ids[node]) * self.block_size + self.offset_of(
                    vertex_ids[node],
                );
                &&& self.mapped_fault(node as usize) is None
                &&& offset + self.node_len <= file.len()
                &&& self.sectors_data@.subrange(start, start + self.node_len as usize)
                    == file.subrange(offset, offset + self.node_len)
            }),
    {
        let size = self.block_size as int;
        let per_node = self.num_sectors_per_node as int;
        let vertex_id = vertex_ids[node];
        let location = self.loaded_node_locations@[node];
        assert(self.is_location(location, vertex_id, list));
        let first = location.buffer_block_index as int;
        let within = self.offset_of(vertex_id);
        let length = self.node_len as int;
        let sector = self.sector_of(vertex_id);
        let start = first * size + within;
        let offset = sector * size + within;
        let buffer = self.sectors_data@;
        assert(per_node > 0) by (nonlinear_arith)
            requires
                per_node * size > 0,
                size > 0,
        ;
        self.lemma_node_sectors_adjacent(vertex_ids, list, node, first, per_node - 1);
        lemma_requests_read_sectors(buffer, file, list, size, 0, first + per_node - 1);
        assert((first + per_node - 1) * size + size == first * size + per_node * size && (sector
            + (per_node - 1)) * size + size == sector * size + per_node * size) by (nonlinear_arith);
        assert(0 <= first * size) by (nonlinear_arith)
            requires
                0 <= first,
                0 < size,
        ;
        assert(0 <= sector * size) by (nonlinear_arith)
            requires
                0 <= sector,
                0 < size,
        ;
        assert forall|i: int| start <= i < start + length implies buffer[i] == file[offset + (i
            - start)] by {
            let into = within + (i - start);
            let block = into / size;
            let rest = into % size;
            assert(0 <= block < per_node && 0 <= rest < size && into == block * size + rest)
                by (nonlinear_arith)
                requires
                    0 <= into < per_node * size,
                    block == into / size,
                    rest == into % size,
                    0 < size,
            ;
            self.lemma_node_sectors_adjacent(vertex_ids, list, node, first, block);
            let at = first + block;
            lemma_requests_read_sectors(buffer, file, list, size, 0, at);
            assert(at * size == first * size + block * size && (sector + block) * size == sector
                * size + block * size) by (nonlinear_arith)
                requires
                    at == first + block,
            ;
            let from = at * size;
            let to = list[at] * size;
            assert(buffer.subrange(from, from + size)[rest] == file.subrange(to, to + size)[rest]);
        }
        assert(buffer.subrange(start, start + length) =~= file.subrange(offset, offset + length));
    }
}

impl DiskSectorGraph {
    /// Nodes fit in the sectors that are read for them.
    pub open spec fn has_room(&self) -> bool {
        if self.num_nodes_per_sector > 0 {
            self.num_sectors_per_node > 0 && self.num_nodes_per_sector * self.node_len
                <= self.block_size
        } else {
            self.node_len <= self.chunk_len()
        }
    }

    /// Where nodes fit in their sectors, no node reaches beyond its own.
    pub proof fn lemma_node_in_room(&self, vertex_id: u32)
        requires
            self.has_room(),
        ensures
            0 <= self.offset_of(vertex_id),
            self.offset_of(vertex_id) + self.node_len <= self.chunk_len(),
    {
        if self.num_nodes_per_sector > 0 {
            let per_sector = self.num_nodes_per_sector as int;
            let within = self.slot_of(vertex_id)->0 as int % per_sector;
            let length = self.node_len as int;
            let size = self.block_size as int;
            let sectors = self.num_sectors_per_node as int;
            assert(0 <= within * length && within * length + length <= per_sector * length)
                by (nonlinear_arith)
                requires
                    0 <= within < per_sector,
                    0 <= length,
            ;
            assert(size <= sectors * size) by (nonlinear_arith)
                requires
                    1 <= sectors,
                    0 <= size,
            ;
        }
    }

    /// Once the plan of a read without a layout, made after a reset, was carried out on a
    /// file, the data of each node are those that the file holds at the node's sector and
    /// offset.
    pub proof fn lemma_unmapped_read_gives_nodes(
        &self,
        planned: Self,
        vertex_ids: Seq<u32>,
        file: Seq<u8>,
        node: int,
    )
        requires
            planned.wf(),
            planned.physical_layout is None,
            planned.cur_sector_idx == 0,
            planned.sectors_data@.len() <= usize::MAX,
            planned.read_graph_fault(vertex_ids.len() as int) is None,
            self.same_shape(planned),
            self.sectors_data@.len() == planned.sectors_data@.len(),
            self.has_room(),
            forall|at: int|
                0 <= at < vertex_ids.len() ==> was_read(
                    self.sectors_data@,
                    file,
                    #[trigger] planned.chunk_request(
                        planned.sector_of(vertex_ids[at]) as u64,
                        at,
                    ),
                ),
            0 <= node < vertex_ids.len(),
            planned.node_fits(vertex_ids[node]),
            planned.sector_of(vertex_ids[node]) * planned.block_size <= u64::MAX,
        ensures
            ({
                let offset = self.sector_of(vertex_ids[node]) * self.block_size + self.offset_of(
                    vertex_ids[node],
                );
                let start = node * self.chunk_len() + self.offset_of(
                    vertex_ids[node],
                ) as u64 as usize;
                &&& (node + 1) * self.chunk_len() <= self.sectors_data@.len()
                &&& self.offset_of(vertex_ids[node]) <= u64::MAX
                &&& self.offset_of(vertex_ids[node]) as u64 as usize + self.node_len as usize
                    <= self.chunk_len()
                &&& offset + self.node_len <= file.len()
                &&& self.sectors_data@.subrange(start, start + self.node_len as usize)
                    == file.subrange(offset, offset + self.node_len)
            }),
    {
        let vertex_id = vertex_ids[node];
        let chunk = self.chunk_len();
        let size = self.block_size as int;
        let most = planned.max_n_batch_sector_read as int;
        let within = self.offset_of(vertex_id);
        let sector = self.sector_of(vertex_id);
        self.lemma_node_in_room(vertex_id);
        let request = planned.chunk_request(planned.sector_of(vertex_id) as u64, node);
        assert(was_read(self.sectors_data@, file, request));
        assert(0 <= chunk) by (nonlinear_arith)
            requires
                chunk == self.num_sectors_per_node * self.block_size,
                0 <= self.num_sectors_per_node,
                0 <= self.block_size,
        ;
        assert(0 <= node * chunk && node * chunk + chunk == (node + 1) * chunk && (node + 1) * chunk
            <= most * chunk) by (nonlinear_arith)
            requires
                0 <= node,
                node + 1 <= most,
                0 <= chunk,
        ;
        assert(0 <= sector) by (nonlinear_arith)
            requires
                sector == 1 + if self.num_nodes_per_sector > 0 {
                    vertex_id as int / self.num_nodes_per_sector as int
                } else {
                    vertex_id * self.num_sectors_per_node
                },
                0 <= vertex_id,
                0 <= self.num_sectors_per_node,
                0 <= self.num_nodes_per_sector,
        ;
        assert(0 <= sector * size) by (nonlinear_arith)
            requires
                0 <= sector,
                0 <= size,
        ;
        assert(request.buffer_start == node * chunk && request.buffer_len == chunk);
        assert(request.offset == sector * size);
        let read = self.sectors_data@.subrange(node * chunk, node * chunk + chunk);
        let stored = file.subrange(sector * size, sector * size + chunk);
        assert(read == stored);
        let length = self.node_len as int;
        assert(self.sectors_data@.subrange(node * chunk + within, node * chunk + within + length)
            =~= read.subrange(within, within + length));
        assert(file.subrange(sector * size + within, sector * size + within + length)
            =~= stored.subrange(within, within + length));
    }
}

impl DiskSectorGraph {
    /// The graph has the geometry of an index.
    pub open spec fn has_geometry(&self, fields: StructuralFields) -> bool {
        &&& self.num_nodes_per_sector == fields.nodes_per_block
        &&& self.node_len == fields.node_len
        &&& self.block_size == fields.block_size
        &&& self.num_sectors_per_node == if fields.nodes_per_block > 0 {
            1
        } else {
            fields.blocks_per_node()
        }
    }

    /// A slot's sector and offset are where the record of the slot starts.
    pub proof fn lemma_record_at_sector(&self, fields: StructuralFields, slot: u32)
        requires
            self.has_geometry(fields),
        ensures
            self.sector_of_slot(slot) * self.block_size + self.offset_of_slot(slot)
                == index::record_start(fields, slot as int),
    {
        let size = fields.block_size as int;
        if fields.nodes_per_block > 0 {
            let block = slot as int / fields.nodes_per_block as int;
            assert((1 + block) * size == size + block * size) by (nonlinear_arith);
        } else {
            let number = slot as int;
            let per_node = fields.blocks_per_node();
            assert((1 + number * per_node) * size == size + number * (per_node * size))
                by (nonlinear_arith);
        }
    }

    /// Reading a node of a rewritten index through its layout gives the record that
    /// the node has in the source index.
    pub proof fn lemma_layout_reads_source_record(
        &self,
        fields: StructuralFields,
        header: GraphHeader,
        source: Seq<u8>,
        mapping: Seq<u32>,
        fingerprint: LayoutFingerprint,
        output: Seq<u8>,
        vertex_id: u32,
    )
        requires
            self.has_geometry(fields),
            image::is_rewritten(fields, header, source, mapping, fingerprint, output),
            self.physical_layout is Some,
            self.physical_layout->0@ == mapping,
            vertex_id < mapping.len(),
        ensures
            ({
                let start = self.sector_of(vertex_id) * self.block_size + self.offset_of(vertex_id);
                output.subrange(start, start + self.node_len) == source.subrange(
                    index::record_start(fields, vertex_id as int),
                    index::record_end(fields, vertex_id as int),
                )
            }),
    {
        let slot = mapping[vertex_id as int];
        self.lemma_record_at_sector(fields, slot);
        assert(image::record_kept(fields, source, vertex_id as int, output, slot as int));
    }
}

/// The requests for an increasing list of sectors are as few as can be: each asks for whole
/// sectors, they fill the buffer one behind the other in the order of the list without a gap,
/// and no two that follow each other could be one, as there are bytes between them that
/// neither asks for.
pub proof fn lemma_requests_are_longest_runs(list: Seq<u64>, block_size: int, from: int)
    requires
        is_increasing(list),
        0 <= from <= list.len(),
        0 < block_size,
        list.len() * block_size <= usize::MAX,
        forall|i: int| 0 <= i < list.len() ==> #[trigger] list[i] * block_size <= u64::MAX,
    ensures
        ({
            let requests = run_requests(list, block_size, from);
            &&& from == list.len() ==> requests.len() == 0
            &&& from < list.len() ==> {
                &&& requests.len() > 0
                &&& requests[0].buffer_start == from * block_size
                &&& requests[0].offset == list[from] * block_size
                &&& requests.last().buffer_start + requests.last().buffer_len == list.len()
                    * block_size
            }
            &&& forall|at: int|
                0 <= at < requests.len() ==> (#[trigger] requests[at]).buffer_len >= block_size
                    && requests[at].buffer_len as int % block_size == 0
            &&& forall|first: int, second: int|
                #![trigger requests[first], requests[second]]
                0 <= first && second == first + 1 && second < requests.len() ==> {
                    &&& requests[first].buffer_start + requests[first].buffer_len
                        == requests[second].buffer_start
                    &&& requests[first].offset + requests[first].buffer_len
                        < requests[second].offset
                }
        }),
    decreases list.len() - from,
{
    if from < list.len() {
        lemma_run_end(list, from + 1);
        let to = run_end(list, from + 1);
        let rest = run_requests(list, block_size, to);
        let requests = run_requests(list, block_size, from);
        let head = run_request(list, block_size, from, to);
        lemma_requests_are_longest_runs(list, block_size, to);
        assert(requests =~= seq![head] + rest);
        let count = to - from;
        let total = list.len() as int;
        assert(0 <= from * block_size && from * block_size + count * block_size == to * block_size
            && to * block_size <= total * block_size && block_size <= count * block_size)
            by (nonlinear_arith)
            requires
                0 <= from,
                count == to - from,
                1 <= count,
                to <= total,
                0 < block_size,
        ;
        assert(0 <= list[from] * block_size) by (nonlinear_arith)
            requires
                0 <= list[from],
                0 < block_size,
        ;
        assert((count * block_size) % block_size == 0) by (nonlinear_arith)
            requires
                0 < block_size,
        ;
        assert(head.buffer_len == count * block_size);
        assert(head.buffer_start == from * block_size);
        assert(head.offset == list[from] * block_size);
        if to < total {
            assert(list[to - 1] == list[from] + (count - 1)) by {
                if to - 1 > from {
                    assert(from + 1 <= to - 1 < to);
                }
            }
            assert(list[to - 1] < list[to]);
            let begin = list[from] as int;
            let next = list[to] as int;
            assert(begin * block_size + count * block_size < next * block_size) by (nonlinear_arith)
                requires
                    begin + count < next,
                    0 < block_size,
            ;
            assert(rest[0].offset == next * block_size);
        }
        assert forall|first: int, second: int|
            #![trigger requests[first], requests[second]]
            0 <= first && second == first + 1 && second < requests.len() implies {
            &&& requests[first].buffer_start + requests[first].buffer_len
                == requests[second].buffer_start
            &&& requests[first].offset + requests[first].buffer_len < requests[second].offset
        } by {
            assert(requests[second] == rest[second - 1]);
            if first > 0 {
                assert(requests[first] == rest[first - 1]);
            } else {
                assert(to < total) by {
                    if to == total {
                        assert(rest.len() == 0);
                    }
                }
            }
        }
        assert forall|at: int| 0 <= at < requests.len() implies (#[trigger] requests[at]).buffer_len
            >= block_size && requests[at].buffer_len as int % block_size == 0 by {
            if at > 0 {
                assert(requests[at] == rest[at - 1]);
            }
        }
        if to < total {
            assert(requests.last() == rest.last());
        } else {
            assert(rest.len() == 0);
            assert(requests.last() == head);
        }
    }
}

impl DiskSectorGraph {
    /// The sectors of the first `count` nodes.
    spec fn all_sectors(&self, vertex_ids: Seq<u32>, count: nat) -> Set<int>
        decreases count,
    {
        if count == 0 {
            Set::empty()
        } else {
            let first = self.sector_of(vertex_ids[count - 1]);
            self.all_sectors(vertex_ids, (count - 1) as nat).union(
                vstd::set_lib::set_int_range(first, first + self.num_sectors_per_node),
            )
        }
    }

    /// Nodes have no more sectors than they are nodes times the sectors of one.
    proof fn lemma_all_sectors(&self, vertex_ids: Seq<u32>, count: nat)
        requires
            count <= vertex_ids.len(),
        ensures
            self.all_sectors(vertex_ids, count).finite(),
            self.all_sectors(vertex_ids, count).len() <= count * self.num_sectors_per_node,
            forall|at: int, sector: int|
                #![trigger vertex_ids[at], self.all_sectors(vertex_ids, count).contains(sector)]
                0 <= at < count && self.sector_of(vertex_ids[at]) <= sector < self.sector_of(
                    vertex_ids[at],
                ) + self.num_sectors_per_node ==> self.all_sectors(vertex_ids, count).contains(
                    sector,
                ),
        decreases count,
    {
        if count > 0 {
            let before = (count - 1) as nat;
            let first = self.sector_of(vertex_ids[count - 1]);
            let last = vstd::set_lib::set_int_range(first, first + self.num_sectors_per_node);
            self.lemma_all_sectors(vertex_ids, before);
            vstd::set_lib::lemma_int_range(first, first + self.num_sectors_per_node);
            vstd::set_lib::lemma_len_union(self.all_sectors(vertex_ids, before), last);
            assert(before * self.num_sectors_per_node + self.num_sectors_per_node == count
                * self.num_sectors_per_node) by (nonlinear_arith)
                requires
                    before == count - 1,
            ;
            assert forall|at: int, sector: int|
                #![trigger vertex_ids[at], self.all_sectors(vertex_ids, count).contains(sector)]
                0 <= at < count && self.sector_of(vertex_ids[at]) <= sector < self.sector_of(
                    vertex_ids[at],
                ) + self.num_sectors_per_node implies self.all_sectors(vertex_ids, count).contains(
                sector,
            ) by {
                if at < before {
                    assert(self.all_sectors(vertex_ids, before).contains(sector));
                }
            }
        }
    }

    /// A batch of nodes with slots that is no larger than the buffer was made for can always
    /// be read through a layout: however the nodes lie, their sectors are no more than the
    /// buffer has room for.
    pub proof fn lemma_mapped_batch_fits(&self, vertex_ids: Seq<u32>, list: Seq<u64>)
        requires
            self.wf(),
            self.sectors_data@.len() <= usize::MAX,
            self.is_sector_list(vertex_ids, list),
            self.physical_layout is Some,
            vertex_ids.len() <= self.max_n_batch_sector_read,
            forall|at: int|
                0 <= at < vertex_ids.len() ==> #[trigger] vertex_ids[at]
                    < self.physical_layout->0@.len(),
            0 < self.num_sectors_per_node,
            forall|at: int|
                0 <= at < vertex_ids.len() ==> self.sector_of(#[trigger] vertex_ids[at])
                    + self.num_sectors_per_node <= u64::MAX,
        ensures
            list.len() <= vertex_ids.len() * self.num_sectors_per_node,
            self.mapped_read_fault(vertex_ids) is None,
    {
        let numbers = Seq::new(list.len(), |at: int| list[at] as int);
        let most = self.max_n_batch_sector_read as int;
        let per_node = self.num_sectors_per_node as int;
        let count = vertex_ids.len() as int;
        let size = self.block_size as int;
        self.lemma_all_sectors(vertex_ids, vertex_ids.len());
        assert forall|at: int| 0 <= at < list.len() implies self.all_sectors(
            vertex_ids,
            vertex_ids.len(),
        ).contains(#[trigger] numbers[at]) by {
            assert(list.contains(list[at]));
            let node = choose|node: int|
                0 <= node < vertex_ids.len() && #[trigger] self.holds_node(
                    vertex_ids[node],
                    list[at],
                );
            assert(self.sector_of(vertex_ids[node]) <= numbers[at]);
        }
        assert(numbers.no_duplicates()) by {
            assert forall|i: int, j: int|
                0 <= i < numbers.len() && 0 <= j < numbers.len() && i != j implies numbers[i]
                != numbers[j] by {
                if i < j {
                    assert(list[i] < list[j]);
                } else {
                    assert(list[j] < list[i]);
                }
            }
        }
        numbers.unique_seq_to_set();
        assert(numbers.to_set().subset_of(self.all_sectors(vertex_ids, vertex_ids.len())));
        vstd::set_lib::lemma_len_subset(
            numbers.to_set(),
            self.all_sectors(vertex_ids, vertex_ids.len()),
        );
        assert(list.len() * size <= most * (per_node * size)) by (nonlinear_arith)
            requires
                list.len() <= count * per_node,
                0 <= count <= most,
                0 < per_node,
                0 <= size,
        ;
        let chosen = self.sector_list(vertex_ids);
        assert(self.is_sector_list(vertex_ids, chosen));
        lemma_sector_list_is_unique(list, chosen);
        self.lemma_none_outside(vertex_ids);
        assert forall|at: int| 0 <= at < vertex_ids.len() implies self.is_needed(
            vertex_ids,
            self.sector_of(#[trigger] vertex_ids[at]) as u64,
        ) by {
            let slot = self.slot_of(vertex_ids[at])->0;
            assert(0 <= self.sector_of(vertex_ids[at])) by {
                assert(0 <= slot * self.num_sectors_per_node) by (nonlinear_arith)
                    requires
                        0 <= slot,
                        0 <= self.num_sectors_per_node,
                ;
            }
            assert(self.holds_node(vertex_ids[at], self.sector_of(vertex_ids[at]) as u64));
        }
    }

    /// Where every node has a slot, none is the first without one.
    proof fn lemma_none_outside(&self, vertex_ids: Seq<u32>)
        requires
            forall|at: int|
                0 <= at < vertex_ids.len() ==> self.slot_of(#[trigger] vertex_ids[at]) is Some,
        ensures
            self.first_outside(vertex_ids) is None,
        decreases vertex_ids.len(),
    {
        if vertex_ids.len() > 0 {
            let front = vertex_ids.drop_last();
            assert forall|at: int| 0 <= at < front.len() implies self.slot_of(
                #[trigger] front[at],
            ) is Some by {
                assert(front[at] == vertex_ids[at]);
            }
            self.lemma_none_outside(front);
            assert(vertex_ids[vertex_ids.len() - 1] == vertex_ids.last());
        }
    }

    /// Without a layout a batch can be read as long as the buffer has room for it behind what
    /// was read before, and nodes take up bytes.
    pub proof fn lemma_unmapped_batch_fits(&self, count: int)
        requires
            self.wf(),
            0 <= count <= usize::MAX,
        ensures
            self.read_graph_fault(count) is None <==> {
                &&& self.cur_sector_idx + count <= self.max_n_batch_sector_read
                &&& 0 < self.num_sectors_per_node
                &&& 0 < self.block_size
            },
    {
        let sectors = self.num_sectors_per_node as int;
        let size = self.block_size as int;
        assert(sectors * size == 0 <==> sectors == 0 || size == 0) by (nonlinear_arith)
            requires
                0 <= sectors,
                0 <= size,
        ;
    }

    /// A new graph reads whole sectors: a node's sectors are the fewest that hold it, and the
    /// size of a sector is that of the header, where it gives one.
    pub proof fn lemma_new_graph_holds_nodes(&self, header: GraphHeader, batch: usize)
        requires
            self.is_new(header, batch, self.physical_layout),
            header.metadata.node_len <= usize::MAX,
            header.block_size <= usize::MAX,
        ensures
            0 < self.block_size,
            header.metadata.num_nodes_per_block > 0 ==> self.num_sectors_per_node == 1,
            header.metadata.num_nodes_per_block == 0 ==> header.metadata.node_len
                <= self.num_sectors_per_node * self.block_size < header.metadata.node_len
                + self.block_size,
            header.block_size > 0 && header.layout_version.major_version > 0 ==> self.block_size
                == header.block_size,
            header.block_size == 0 || (header.layout_version.major_version == 0
                && header.layout_version.minor_version == 0) ==> self.block_size == 4096,
            self.sectors_data@.len() == batch * (self.num_sectors_per_node * self.block_size),
    {
        arithmetic::lemma_div_ceil(
            header.metadata.node_len as usize as int,
            sector_len(header) as int,
        );
    }
}

impl DiskSectorGraph {
    /// The node that is reported to be outside a layout is the first that is.
    pub proof fn lemma_first_outside_is_first(&self, vertex_ids: Seq<u32>, at: int)
        requires
            self.physical_layout is Some,
            0 <= at < vertex_ids.len(),
            vertex_ids[at] >= self.physical_layout->0@.len(),
            forall|earlier: int|
                0 <= earlier < at ==> #[trigger] vertex_ids[earlier]
                    < self.physical_layout->0@.len(),
        ensures
            self.first_outside(vertex_ids) == Some(vertex_ids[at]),
    {
        let front = vertex_ids.take(at);
        assert forall|earlier: int| 0 <= earlier < front.len() implies self.slot_of(
            #[trigger] front[earlier],
        ) is Some by {
            assert(front[earlier] == vertex_ids[earlier]);
        }
        self.lemma_none_outside(front);
        let some = vertex_ids.take(at + 1);
        assert(some.drop_last() =~= front);
        assert(self.first_outside(some) == Some(vertex_ids[at]));
        self.lemma_outside_stays(vertex_ids, at + 1);
    }
}

impl DiskSectorGraph {
    /// Where a node is read: without a layout at the record of its own number, with one at the
    /// record of the slot that the layout gives it.
    pub proof fn lemma_node_is_read_at_record(&self, fields: StructuralFields, vertex_id: u32)
        requires
            self.has_geometry(fields),
        ensures
            self.physical_layout is None ==> self.sector_of(vertex_id) * self.block_size
                + self.offset_of(vertex_id) == index::record_start(fields, vertex_id as int),
            self.physical_layout is Some && vertex_id < self.physical_layout->0@.len()
                ==> self.sector_of(vertex_id) * self.block_size + self.offset_of(vertex_id)
                == index::record_start(
                fields,
                self.physical_layout->0@[vertex_id as int] as int,
            ),
    {
        self.lemma_record_at_sector(fields, vertex_id);
        if self.physical_layout is Some && vertex_id < self.physical_layout->0@.len() {
            self.lemma_record_at_sector(fields, self.physical_layout->0@[vertex_id as int]);
        }
    }
}

} // verus!
