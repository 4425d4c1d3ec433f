//! Rewriting an index to the graph-aware layout.
use crate::arithmetic;
use crate::bytes;
use crate::data_model::LayoutFingerprint;
use crate::digest;
use crate::layout::error::InvalidLayout;
use crate::layout::error::LayoutError;
use crate::layout::estimate;
use crate::layout::estimate::LayoutEstimate;
use crate::layout::fields;
use crate::layout::fields::StructuralFields;
use crate::layout::image;
use crate::layout::index;
use crate::layout::index::MappedIndex;
use crate::layout::mapping;
use crate::layout::ordering;
use crate::layout::packing;
use crate::layout::quality;
use crate::layout::quality::LayoutQuality;
use crate::layout::sidecar;
use crate::layout::sidecar::SidecarContents;
use vstd::prelude::*;

verus! {

/// Wall-clock phase durations in milliseconds.
#[derive(Debug, Clone, Copy, PartialEq, Eq, Structural)]
pub struct PhaseTimings {
    pub validation_ms: u64,
    pub packing_ms: u64,
    pub block_ordering_ms: u64,
    pub quality_ms: u64,
    pub output_write_ms: u64,
    pub sidecar_write_ms: u64,
    pub total_ms: u64,
}

impl Default for PhaseTimings {
    fn default() -> (timings: Self)
        ensures
            timings == (PhaseTimings {
                validation_ms: 0,
                packing_ms: 0,
                block_ordering_ms: 0,
                quality_ms: 0,
                output_write_ms: 0,
                sidecar_write_ms: 0,
                total_ms: 0,
            }),
    {
        PhaseTimings {
            validation_ms: 0,
            packing_ms: 0,
            block_ordering_ms: 0,
            quality_ms: 0,
            output_write_ms: 0,
            sidecar_write_ms: 0,
            total_ms: 0,
        }
    }
}

/// A number of milliseconds as it is reported: the largest `u64` where there are more.
pub fn elapsed_ms(milliseconds: u128) -> (reported: u64)
    ensures
        reported == if milliseconds > u64::MAX {
            u64::MAX as int
        } else {
            milliseconds as int
        },
{
    if milliseconds > u64::MAX as u128 {
        u64::MAX
    } else {
        milliseconds as u64
    }
}

/// What a rewrite did to an index.
#[derive(Debug)]
pub struct LayoutReport {
    pub source_index: String,
    pub output_index: String,
    pub sidecar: String,
    pub source_size: u64,
    pub output_size: u64,
    pub num_points: u64,
    pub num_edges: u64,
    pub num_blocks: u64,
    pub block_size: u64,
    pub node_length: u64,
    pub capacity: u64,
    pub mapping_bytes: u64,
    pub deterministic_algorithm: String,
    pub before: LayoutQuality,
    pub after: LayoutQuality,
    pub estimate: LayoutEstimate,
}

/// What the caller found out about the paths of a rewrite.
#[derive(Debug, Clone, Copy)]
pub struct PathFacts {
    pub output_exists: bool,
    pub sidecar_exists: bool,
    pub paths_distinct: bool,
}

/// The layout that was found for an index.
#[derive(Debug)]
pub struct LayoutPlan {
    pub mapping: Vec<u32>,
    pub before: LayoutQuality,
    pub after: LayoutQuality,
    pub num_edges: u64,
    pub estimate: LayoutEstimate,
    pub capacity: u64,
}

/// The bytes of a rewritten index and of its sidecar.
#[derive(Debug)]
pub struct RewrittenIndex {
    pub output: Vec<u8>,
    pub sidecar: Vec<u8>,
    pub mapping: Vec<u32>,
    pub fingerprint: LayoutFingerprint,
}

/// The nodes that go into a block.
pub open spec fn block_capacity(fields: StructuralFields) -> u64 {
    if fields.nodes_per_block > 1 {
        fields.nodes_per_block
    } else {
        1
    }
}

/// `slots` is the graph-aware mapping of a graph: it numbers the nodes of the
/// greedy packing in the greedy order of its blocks.
pub open spec fn is_graph_aware(
    adjacency: Seq<Seq<u32>>,
    capacity: nat,
    medoid: u32,
    slots: Seq<u32>,
) -> bool {
    exists|blocks: Seq<Seq<u32>>, order: Seq<usize>| #[trigger]
        gives_slots(adjacency, capacity, medoid, blocks, order, slots)
}

/// Packing into `blocks` and ordering them by `order` gives `slots`.
pub open spec fn gives_slots(
    adjacency: Seq<Seq<u32>>,
    capacity: nat,
    medoid: u32,
    blocks: Seq<Seq<u32>>,
    order: Seq<usize>,
    slots: Seq<u32>,
) -> bool {
    &&& packing::is_packing(adjacency, capacity, blocks)
    &&& ordering::is_order(adjacency, blocks, medoid, order)
    &&& slots == mapping::slots(
        packing::nodes_of(mapping::ordered_blocks(blocks, order)),
        adjacency.len(),
    )
}

/// A graph has one graph-aware mapping.
pub proof fn lemma_graph_aware_mapping_is_unique(
    adjacency: Seq<Seq<u32>>,
    capacity: nat,
    medoid: u32,
    left: Seq<u32>,
    right: Seq<u32>,
)
    requires
        is_graph_aware(adjacency, capacity, medoid, left),
        is_graph_aware(adjacency, capacity, medoid, right),
    ensures
        left == right,
{
    let (left_blocks, left_order) = choose|blocks: Seq<Seq<u32>>, order: Seq<usize>| #[trigger]
        gives_slots(adjacency, capacity, medoid, blocks, order, left);
    let (right_blocks, right_order) = choose|blocks: Seq<Seq<u32>>, order: Seq<usize>| #[trigger]
        gives_slots(adjacency, capacity, medoid, blocks, order, right);
    packing::lemma_packing_is_unique(adjacency, capacity, left_blocks, right_blocks);
    ordering::lemma_order_is_unique(adjacency, left_blocks, medoid, left_order, right_order);
}

/// A graph-aware mapping sends the nodes to slots one to one.
pub proof fn lemma_graph_aware_mapping_is_bijection(
    adjacency: Seq<Seq<u32>>,
    capacity: nat,
    medoid: u32,
    slots: Seq<u32>,
)
    requires
        is_graph_aware(adjacency, capacity, medoid, slots),
        adjacency.len() <= u32::MAX,
    ensures
        slots.len() == adjacency.len(),
        sidecar::is_bijection(slots),
{
    let (blocks, order) = choose|blocks: Seq<Seq<u32>>, order: Seq<usize>| #[trigger]
        gives_slots(adjacency, capacity, medoid, blocks, order, slots);
    mapping::lemma_mapping_of_packing(adjacency, capacity, blocks, medoid, order);
}

/// The distances of all edges of an index under a mapping.
pub open spec fn index_distances(mapped: &MappedIndex<'_>, slots: Seq<u32>) -> Seq<int> {
    quality::edge_distances(
        mapped.fields,
        block_capacity(mapped.fields) as int,
        slots,
        mapped.adjacency(),
        mapped.fields.num_points as nat,
    )
}

/// The mapping that leaves every node where it is.
pub open spec fn identity(count: nat) -> Seq<u32> {
    Seq::new(count, |node: int| node as u32)
}

/// `plan` is the layout of an index.
pub open spec fn is_plan(mapped: &MappedIndex<'_>, plan: LayoutPlan) -> bool {
    &&& plan.capacity == block_capacity(mapped.fields)
    &&& is_graph_aware(
        mapped.adjacency(),
        plan.capacity as nat,
        mapped.fields.medoid as u32,
        plan.mapping@,
    )
    &&& quality::describes(
        plan.before,
        index_distances(mapped, identity(mapped.fields.num_points as nat)),
    )
    &&& quality::describes(plan.after, index_distances(mapped, plan.mapping@))
    &&& plan.num_edges == index_distances(
        mapped,
        identity(mapped.fields.num_points as nat),
    ).len()
    &&& plan.estimate == estimate::estimate_of(mapped.fields)
}

/// The number of nodes that are packed together.
pub fn capacity_of(fields: &StructuralFields) -> (capacity: u64)
    ensures
        capacity == block_capacity(*fields),
{
    if fields.nodes_per_block > 1 {
        fields.nodes_per_block
    } else {
        1
    }
}

/// Orders packed blocks and numbers their nodes.
pub fn place_nodes(mapped: &MappedIndex<'_>, blocks: &[Vec<u32>], capacity: u64) -> (result: Result<
    Vec<u32>,
    LayoutError,
>)
    requires
        mapped.wf(),
        capacity > 0,
        packing::is_packing(
            mapped.adjacency(),
            capacity as nat,
            packing::block_views(blocks@),
        ),
    ensures
        result is Ok,
        is_graph_aware(
            mapped.adjacency(),
            capacity as nat,
            mapped.fields.medoid as u32,
            result->Ok_0@,
        ),
{
    let ghost views = packing::block_views(blocks@);
    let ghost medoid = mapped.fields.medoid as u32;
    proof {
        mapped.lemma_wf();
        mapped.lemma_point_count();
        packing::lemma_packing_is_partition(mapped.adjacency(), capacity as nat, views);
        lemma_packed_nodes_below(mapped.adjacency(), capacity as nat, views);
    }
    let order = match ordering::order_blocks(mapped, blocks) {
        Ok(order) => order,
        Err(error) => {
            return Err(error);
        },
    };
    proof {
        mapping::lemma_order_is_permutation(mapped.adjacency(), views, medoid, order@);
        mapping::lemma_mapping_of_packing(
            mapped.adjacency(),
            capacity as nat,
            views,
            medoid,
            order@,
        );
    }
    let slots = match mapping::make_mapping(blocks, order.as_slice(), mapped.fields.num_points) {
        Ok(slots) => slots,
        Err(error) => {
            return Err(error);
        },
    };
    assert(gives_slots(mapped.adjacency(), capacity as nat, medoid, views, order@, slots@));
    Ok(slots)
}

/// Edge locality before and after nodes are moved to their slots, and the number of
/// edges.
pub fn compare_layouts(mapped: &MappedIndex<'_>, slots: &[u32]) -> (result: (
    LayoutQuality,
    LayoutQuality,
    u64,
))
    requires
        mapped.wf(),
        slots@.len() == mapped.fields.num_points,
        sidecar::is_bijection(slots@),
    ensures
        quality::describes(
            result.0,
            index_distances(mapped, identity(mapped.fields.num_points as nat)),
        ),
        quality::describes(result.1, index_distances(mapped, slots@)),
        result.2 == index_distances(mapped, identity(mapped.fields.num_points as nat)).len(),
{
    proof {
        mapped.lemma_wf();
        mapped.lemma_point_count();
    }
    let capacity: u64 = capacity_of(&mapped.fields);
    let identity = identity_mapping(mapped.fields.num_points as u32);
    let (before, num_edges) = quality::quality(mapped, identity.as_slice(), capacity);
    let (after, _) = quality::quality(mapped, slots, capacity);
    (before, after, num_edges)
}

/// Finds the layout of an index.
pub fn plan_layout(mapped: &MappedIndex<'_>) -> (result: Result<LayoutPlan, LayoutError>)
    requires
        mapped.wf(),
    ensures
        match result {
            Ok(plan) => estimate::estimate_fault(mapped.fields) is None && is_plan(mapped, plan),
            Err(error) => estimate::estimate_fault(mapped.fields) is Some && error
                == LayoutError::Invalid(estimate::estimate_fault(mapped.fields)->0),
        },
{
    proof {
        mapped.lemma_wf();
        mapped.lemma_point_count();
        lemma_capacity_fits(mapped);
    }
    let estimate = match estimate::estimate(&mapped.fields) {
        Ok(estimate) => estimate,
        Err(error) => {
            return Err(error);
        },
    };
    let capacity: u64 = capacity_of(&mapped.fields);
    let blocks = match packing::pack_nodes(mapped, capacity as usize) {
        Ok(blocks) => blocks,
        Err(error) => {
            return Err(error);
        },
    };
    let slots = match place_nodes(mapped, blocks.as_slice(), capacity) {
        Ok(slots) => slots,
        Err(error) => {
            return Err(error);
        },
    };
    proof {
        lemma_graph_aware_mapping_is_bijection(
            mapped.adjacency(),
            capacity as nat,
            mapped.fields.medoid as u32,
            slots@,
        );
    }
    let (before, after, num_edges) = compare_layouts(mapped, slots.as_slice());
    Ok(LayoutPlan { mapping: slots, before, after, num_edges, estimate, capacity })
}

/// A block of an opened index holds no more nodes than can be counted.
proof fn lemma_capacity_fits(mapped: &MappedIndex<'_>)
    requires
        mapped.wf(),
    ensures
        block_capacity(mapped.fields) <= usize::MAX,
{
    mapped.lemma_wf();
    index::lemma_record_in_index(mapped.fields, 0);
    let fields = mapped.fields;
    if fields.nodes_per_block > 0 {
        assert(fields.block_size as int / fields.node_len as int <= fields.block_size)
            by (nonlinear_arith)
            requires
                fields.node_len > 0,
                fields.block_size >= 0,
        ;
    }
}

/// The nodes of a packing are nodes of the graph.
proof fn lemma_packed_nodes_below(
    adjacency: Seq<Seq<u32>>,
    capacity: nat,
    blocks: Seq<Seq<u32>>,
)
    requires
        packing::is_packing(adjacency, capacity, blocks),
    ensures
        ordering::nodes_below(blocks, adjacency.len() as int),
{
    assert forall|at: int, within: int|
        #![trigger blocks[at][within]]
        0 <= at < blocks.len() && 0 <= within < blocks[at].len() implies blocks[at][within]
        < adjacency.len() by {
        let placed = packing::nodes_of(blocks.take(at));
        assert(packing::is_greedy(adjacency, placed, blocks[at]));
        assert(packing::is_next(
            adjacency,
            placed,
            blocks[at].take(within),
            blocks[at][within],
        ));
    }
}

/// The mapping that leaves every node where it is.
fn identity_mapping(count: u32) -> (slots: Vec<u32>)
    ensures
        slots@ == identity(count as nat),
{
    let mut slots: Vec<u32> = Vec::new();
    let mut node: u32 = 0;
    while node < count
        invariant
            node <= count,
            slots@ == identity(node as nat),
        decreases count - node,
    {
        slots.push(node);
        assert(slots@ =~= identity((node + 1) as nat));
        node += 1;
    }
    slots
}

/// Writes the rewritten index and its sidecar, given the digest of the source,
/// the binding digest and the checksum of the mapping.
pub fn write_outputs(
    mapped: &MappedIndex<'_>,
    slots: Vec<u32>,
    source_digest: &[u8; 32],
    binding: &[u8; 32],
    checksum: &[u8; 32],
) -> (result: Result<RewrittenIndex, LayoutError>)
    requires
        mapped.wf(),
        slots@.len() == mapped.fields.num_points,
        sidecar::is_bijection(slots@),
    ensures
        match result {
            Ok(rewritten) => {
                &&& sidecar::fingerprint_prefix(binding@) != 0
                &&& rewritten.fingerprint == LayoutFingerprint::of(
                    sidecar::fingerprint_prefix(binding@),
                )
                &&& rewritten.mapping@ == slots@
                &&& image::is_rewritten(
                    mapped.fields,
                    mapped.header,
                    mapped.bytes@,
                    slots@,
                    rewritten.fingerprint,
                    rewritten.output@,
                )
                &&& rewritten.sidecar@ == sidecar::sidecar_image(
                    mapped.fields,
                    sidecar::fingerprint_prefix(binding@),
                    source_digest@,
                    binding@,
                    checksum@,
                    slots@,
                )
                &&& rewritten.sidecar@.len() == sidecar::FIXED_SIZE + 4 * slots@.len()
            },
            Err(error) => sidecar::fingerprint_prefix(binding@) == 0 && error
                == LayoutError::Invalid(InvalidLayout::ZeroFingerprint),
        },
{
    let fingerprint = match sidecar::digest_fingerprint(binding) {
        Ok(fingerprint) => fingerprint,
        Err(error) => {
            return Err(error);
        },
    };
    proof {
        LayoutFingerprint::lemma_view_of(sidecar::fingerprint_prefix(binding@));
    }
    let output = image::assemble_output(mapped, slots.as_slice(), fingerprint);
    let contents = SidecarContents {
        fields: &mapped.fields,
        source_digest,
        binding_digest: binding,
        fingerprint,
        mapping: slots.as_slice(),
    };
    let sidecar = sidecar::encode_sidecar(&contents, checksum);
    proof {
        sidecar::lemma_sidecar_len(
            mapped.fields,
            fingerprint@,
            source_digest@,
            binding@,
            checksum@,
            slots@,
        );
    }
    Ok(RewrittenIndex { output, sidecar, mapping: slots, fingerprint })
}

/// The binding digest of an index and its mapping.
pub open spec fn binding_of(mapped: &MappedIndex<'_>, slots: Seq<u32>) -> Seq<u8> {
    digest::sha256(
        sidecar::binding_message(digest::sha256(mapped.bytes@), mapped.fields, slots),
    )
}

/// `rewritten` is what rewriting an index gives: its graph-aware mapping, the
/// index with every record in its slot, and a sidecar with which it loads.
pub open spec fn is_rewrite(mapped: &MappedIndex<'_>, rewritten: RewrittenIndex) -> bool {
    let slots = rewritten.mapping@;
    let binding = binding_of(mapped, slots);
    &&& is_graph_aware(
        mapped.adjacency(),
        block_capacity(mapped.fields) as nat,
        mapped.fields.medoid as u32,
        slots,
    )
    &&& rewritten.fingerprint@ == sidecar::fingerprint_prefix(binding)
    &&& image::is_rewritten(
        mapped.fields,
        mapped.header,
        mapped.bytes@,
        slots,
        rewritten.fingerprint,
        rewritten.output@,
    )
    &&& rewritten.sidecar@ == sidecar::sidecar_image(
        mapped.fields,
        rewritten.fingerprint@,
        digest::sha256(mapped.bytes@),
        binding,
        digest::sha256(bytes::u32s_bytes(slots)),
        slots,
    )
    &&& rewritten.sidecar@.len() == sidecar::FIXED_SIZE + 4 * slots.len()
    &&& rewritten.sidecar@.subrange(64, 96) == digest::sha256(mapped.bytes@)
    &&& sidecar::load_outcome(
        rewritten.output@,
        rewritten.output@.len() as u64,
        rewritten.sidecar@,
    ) == Ok::<_, LayoutError>(Some((slots, rewritten.fingerprint)))
}

/// An estimate says how long the rewritten index, its sidecar and the mapping will be,
/// and the index keeps its length.
pub proof fn lemma_estimate_matches_rewrite(mapped: &MappedIndex<'_>, rewritten: RewrittenIndex)
    requires
        mapped.wf(),
        is_rewrite(mapped, rewritten),
    ensures
        ({
            let estimate = estimate::estimate_of(mapped.fields);
            &&& estimate.output_bytes == rewritten.output@.len()
            &&& estimate.output_bytes == mapped.bytes@.len()
            &&& estimate.sidecar_bytes == rewritten.sidecar@.len()
            &&& estimate.mapping_bytes == 4 * rewritten.mapping@.len()
        }),
{
    mapped.lemma_wf();
    mapped.lemma_point_count();
    lemma_graph_aware_mapping_is_bijection(
        mapped.adjacency(),
        block_capacity(mapped.fields) as nat,
        mapped.fields.medoid as u32,
        rewritten.mapping@,
    );
}

/// Rewriting is deterministic: an index has one graph-aware layout, and with it one
/// rewritten index and one sidecar, byte for byte.
pub proof fn lemma_rewrite_is_deterministic(
    mapped: &MappedIndex<'_>,
    left: RewrittenIndex,
    right: RewrittenIndex,
)
    requires
        mapped.wf(),
        is_rewrite(mapped, left),
        is_rewrite(mapped, right),
    ensures
        left.mapping@ == right.mapping@,
        left.fingerprint == right.fingerprint,
        left.output@ == right.output@,
        left.sidecar@ == right.sidecar@,
{
    let adjacency = mapped.adjacency();
    let capacity = block_capacity(mapped.fields) as nat;
    let medoid = mapped.fields.medoid as u32;
    mapped.lemma_wf();
    lemma_graph_aware_mapping_is_unique(
        adjacency,
        capacity,
        medoid,
        left.mapping@,
        right.mapping@,
    );
    lemma_graph_aware_mapping_is_bijection(adjacency, capacity, medoid, left.mapping@);
    left.fingerprint.lemma_of_view();
    right.fingerprint.lemma_of_view();
    image::lemma_rewritten_is_unique(
        mapped,
        left.mapping@,
        left.fingerprint,
        left.output@,
        right.output@,
    );
}

/// A rewritten index refuses every sidecar but its own, were it changed by a single bit,
/// unless the binding digests of the two collide.
pub proof fn lemma_other_sidecar_is_refused(
    mapped: &MappedIndex<'_>,
    rewritten: RewrittenIndex,
    other: Seq<u8>,
)
    requires
        mapped.wf(),
        is_rewrite(mapped, rewritten),
        other != rewritten.sidecar@,
        sidecar::no_collision(
            sidecar::stored_message(
                rewritten.output@,
                rewritten.output@.len() as u64,
                rewritten.sidecar@,
            ),
            sidecar::stored_message(rewritten.output@, rewritten.output@.len() as u64, other),
        ),
    ensures
        sidecar::load_outcome(rewritten.output@, rewritten.output@.len() as u64, other) is Err,
{
    let index = rewritten.output@;
    if sidecar::load_outcome(index, index.len() as u64, other) is Ok {
        sidecar::lemma_one_sidecar_loads(index, index.len() as u64, rewritten.sidecar@, other);
    }
}

/// A rewritten index refuses the sidecar of another index, unless digests of the two
/// collide.
pub proof fn lemma_foreign_sidecar_is_refused(
    mapped: &MappedIndex<'_>,
    rewritten: RewrittenIndex,
    other_mapped: &MappedIndex<'_>,
    other: RewrittenIndex,
)
    requires
        mapped.wf(),
        is_rewrite(mapped, rewritten),
        other_mapped.wf(),
        is_rewrite(other_mapped, other),
        digest::sha256(mapped.bytes@) != digest::sha256(other_mapped.bytes@),
        sidecar::no_collision(
            sidecar::stored_message(
                rewritten.output@,
                rewritten.output@.len() as u64,
                rewritten.sidecar@,
            ),
            sidecar::stored_message(
                rewritten.output@,
                rewritten.output@.len() as u64,
                other.sidecar@,
            ),
        ),
    ensures
        sidecar::load_outcome(
            rewritten.output@,
            rewritten.output@.len() as u64,
            other.sidecar@,
        ) is Err,
{
    lemma_other_sidecar_is_refused(mapped, rewritten, other.sidecar@);
}

/// Writes the rewritten index and its sidecar for a mapping, and loads them.
fn write_and_load(mapped: &MappedIndex<'_>, slots: Vec<u32>) -> (result: Result<
    RewrittenIndex,
    LayoutError,
>)
    requires
        mapped.wf(),
        slots@.len() == mapped.fields.num_points,
        sidecar::is_bijection(slots@),
        is_graph_aware(
            mapped.adjacency(),
            block_capacity(mapped.fields) as nat,
            mapped.fields.medoid as u32,
            slots@,
        ),
    ensures
        match result {
            Ok(rewritten) => {
                &&& sidecar::fingerprint_prefix(binding_of(mapped, slots@)) != 0
                &&& rewritten.mapping@ == slots@
                &&& is_rewrite(mapped, rewritten)
            },
            Err(error) => sidecar::fingerprint_prefix(binding_of(mapped, slots@)) == 0 && error
                == LayoutError::Invalid(InvalidLayout::ZeroFingerprint),
        },
{
    let source_digest: [u8; 32] = digest::sha256_digest(mapped.bytes);
    let binding: [u8; 32] = sidecar::binding_digest(
        &source_digest,
        &mapped.fields,
        slots.as_slice(),
    );
    let checksum: [u8; 32] = sidecar::mapping_bytes_digest(slots.as_slice());
    let rewritten = match write_outputs(mapped, slots, &source_digest, &binding, &checksum) {
        Ok(rewritten) => rewritten,
        Err(error) => {
            return Err(error);
        },
    };
    proof {
        LayoutFingerprint::lemma_view_of(sidecar::fingerprint_prefix(binding@));
        image::lemma_rewrite_loads(
            mapped,
            rewritten.mapping@,
            rewritten.fingerprint,
            source_digest@,
            rewritten.output@,
        );
        mapped.lemma_wf();
        sidecar::lemma_sidecar_round_trip(
            mapped.fields,
            rewritten.fingerprint,
            source_digest@,
            binding@,
            checksum@,
            rewritten.mapping@,
        );
        assert(rewritten.output.len() == rewritten.output@.len());
    }
    match sidecar::load_physical_layout(
        rewritten.output.as_slice(),
        rewritten.output.len() as u64,
        rewritten.sidecar.as_slice(),
    ) {
        Ok(_) => Ok(rewritten),
        Err(error) => Err(error),
    }
}

/// What the paths of a rewrite forbid.
pub open spec fn path_error(
    output_index: Seq<char>,
    sidecar: Seq<char>,
    facts: PathFacts,
    error: LayoutError,
) -> bool {
    if facts.output_exists {
        error is AlreadyExists && error->AlreadyExists_0@ == output_index
    } else if facts.sidecar_exists {
        error is AlreadyExists && error->AlreadyExists_0@ == sidecar
    } else {
        !facts.paths_distinct && error == LayoutError::Invalid(InvalidLayout::PathsNotDistinct)
    }
}

/// The paths of a rewrite allow it.
pub open spec fn paths_allow(facts: PathFacts) -> bool {
    !facts.output_exists && !facts.sidecar_exists && facts.paths_distinct
}

/// Checks what the caller found out about the paths.
pub fn check_paths(output_index: &str, sidecar: &str, facts: PathFacts) -> (result: Result<
    (),
    LayoutError,
>)
    ensures
        match result {
            Ok(()) => paths_allow(facts),
            Err(error) => !paths_allow(facts) && path_error(
                output_index@,
                sidecar@,
                facts,
                error,
            ),
        },
{
    if facts.output_exists {
        return Err(LayoutError::AlreadyExists(output_index.to_owned()));
    }
    if facts.sidecar_exists {
        return Err(LayoutError::AlreadyExists(sidecar.to_owned()));
    }
    if !facts.paths_distinct {
        return Err(LayoutError::Invalid(InvalidLayout::PathsNotDistinct));
    }
    Ok(())
}

/// The name of the algorithm.
pub open spec fn algorithm() -> Seq<char> {
    "deterministic greedy outgoing-edge packing; lowest-ID ties; deterministic weighted inter-block ordering from the medoid"@
}

/// `report` says what a rewrite of an index did.
pub open spec fn is_report(
    mapped: &MappedIndex<'_>,
    slots: Seq<u32>,
    source_index: Seq<char>,
    output_index: Seq<char>,
    sidecar: Seq<char>,
    report: LayoutReport,
) -> bool {
    let count = mapped.fields.num_points as nat;
    &&& report.source_index@ == source_index
    &&& report.output_index@ == output_index
    &&& report.sidecar@ == sidecar
    &&& report.source_size == mapped.bytes@.len()
    &&& report.output_size == mapped.bytes@.len()
    &&& report.num_points == count
    &&& report.num_edges == index_distances(mapped, identity(count)).len()
    &&& report.num_blocks == mapped.fields.data_blocks()
    &&& report.block_size == mapped.fields.block_size
    &&& report.node_length == mapped.fields.node_len
    &&& report.capacity == block_capacity(mapped.fields)
    &&& report.mapping_bytes == count * 4
    &&& report.deterministic_algorithm@ == algorithm()
    &&& quality::describes(report.before, index_distances(mapped, identity(count)))
    &&& quality::describes(report.after, index_distances(mapped, slots))
    &&& report.estimate == estimate::estimate_of(mapped.fields)
}

/// The index that `source` is, once it can be opened.
pub open spec fn opens_as(source: Seq<u8>, mapped: &MappedIndex<'_>) -> bool {
    mapped.wf() && mapped.bytes@ == source
}

/// What rewriting `source` gives where the paths allow it.
pub open spec fn rewrite_result(
    source: Seq<u8>,
    source_index: Seq<char>,
    output_index: Seq<char>,
    sidecar: Seq<char>,
    report: LayoutReport,
    rewritten: RewrittenIndex,
) -> bool {
    exists|mapped: &MappedIndex<'_>| #[trigger]
        opens_as(source, mapped) && estimate::estimate_fault(mapped.fields) is None && is_rewrite(
            mapped,
            rewritten,
        ) && is_report(
            mapped,
            rewritten.mapping@,
            source_index,
            output_index,
            sidecar,
            report,
        )
}

/// Why rewriting `source` fails where the paths allow it: the index cannot be
/// opened, an estimate overflows, or the binding digest starts with zeros.
pub open spec fn rewrite_error(source: Seq<u8>, error: LayoutError) -> bool {
    if index::open_fault(source) is Some {
        error == LayoutError::Invalid(index::open_fault(source)->0)
    } else {
        exists|mapped: &MappedIndex<'_>| #[trigger]
            opens_as(source, mapped) && if estimate::estimate_fault(mapped.fields) is Some {
                error == LayoutError::Invalid(estimate::estimate_fault(mapped.fields)->0)
            } else {
                zero_fingerprint(mapped) && error == LayoutError::Invalid(
                    InvalidLayout::ZeroFingerprint,
                )
            }
    }
}

/// The binding digest of an index and its graph-aware mapping starts with zeros.
pub open spec fn zero_fingerprint(mapped: &MappedIndex<'_>) -> bool {
    exists|slots: Seq<u32>| #[trigger]
        is_graph_aware(
            mapped.adjacency(),
            block_capacity(mapped.fields) as nat,
            mapped.fields.medoid as u32,
            slots,
        ) && sidecar::fingerprint_prefix(binding_of(mapped, slots)) == 0
}

/// Rewrite to graph layout 1.1 using an explicit sidecar path.
pub fn rewrite_graph_aware_layout_to(
    source: &[u8],
    source_index: &str,
    output_index: &str,
    sidecar: &str,
    facts: PathFacts,
) -> (result: Result<(LayoutReport, RewrittenIndex), LayoutError>)
    ensures
        match result {
            Ok((report, rewritten)) => paths_allow(facts) && index::open_fault(source@) is None
                && rewrite_result(
                source@,
                source_index@,
                output_index@,
                sidecar@,
                report,
                rewritten,
            ),
            Err(error) => if paths_allow(facts) {
                rewrite_error(source@, error)
            } else {
                path_error(output_index@, sidecar@, facts, error)
            },
        },
{
    match check_paths(output_index, sidecar, facts) {
        Ok(()) => {},
        Err(error) => {
            return Err(error);
        },
    }
    let mapped = match MappedIndex::open(source) {
        Ok(mapped) => mapped,
        Err(error) => {
            return Err(error);
        },
    };
    assert(opens_as(source@, &mapped));
    let plan = match plan_layout(&mapped) {
        Ok(plan) => plan,
        Err(error) => {
            return Err(error);
        },
    };
    match finish_rewrite(&mapped, plan, source_index, output_index, sidecar) {
        Ok(finished) => Ok(finished),
        Err(error) => {
            assert(zero_fingerprint(&mapped));
            Err(error)
        },
    }
}

/// Carries out the plan for an index: the rewritten index with its sidecar, and the
/// report.
pub fn finish_rewrite(
    mapped: &MappedIndex<'_>,
    plan: LayoutPlan,
    source_index: &str,
    output_index: &str,
    sidecar: &str,
) -> (result: Result<(LayoutReport, RewrittenIndex), LayoutError>)
    requires
        mapped.wf(),
        is_plan(mapped, plan),
    ensures
        match result {
            Ok((report, rewritten)) => {
                &&& sidecar::fingerprint_prefix(binding_of(mapped, plan.mapping@)) != 0
                &&& rewritten.mapping@ == plan.mapping@
                &&& is_rewrite(mapped, rewritten)
                &&& is_report(
                    mapped,
                    rewritten.mapping@,
                    source_index@,
                    output_index@,
                    sidecar@,
                    report,
                )
            },
            Err(error) => {
                &&& sidecar::fingerprint_prefix(binding_of(mapped, plan.mapping@)) == 0
                &&& error == LayoutError::Invalid(InvalidLayout::ZeroFingerprint)
            },
        },
{
    proof {
        mapped.lemma_wf();
        mapped.lemma_point_count();
        lemma_graph_aware_mapping_is_bijection(
            mapped.adjacency(),
            plan.capacity as nat,
            mapped.fields.medoid as u32,
            plan.mapping@,
        );
    }
    let rewritten = match write_and_load(mapped, plan.mapping) {
        Ok(rewritten) => rewritten,
        Err(error) => {
            return Err(error);
        },
    };
    let num_blocks: u64 = count_blocks(mapped);
    let report = LayoutReport {
        source_index: source_index.to_owned(),
        output_index: output_index.to_owned(),
        sidecar: sidecar.to_owned(),
        source_size: mapped.fields.index_len,
        output_size: rewritten.output.len() as u64,
        num_points: mapped.fields.num_points,
        num_edges: plan.num_edges,
        num_blocks,
        block_size: mapped.fields.block_size,
        node_length: mapped.fields.node_len,
        capacity: plan.capacity,
        mapping_bytes: mapped.fields.num_points * 4,
        deterministic_algorithm: "deterministic greedy outgoing-edge packing; lowest-ID ties; deterministic weighted inter-block ordering from the medoid".to_owned(),
        before: plan.before,
        after: plan.after,
        estimate: plan.estimate,
    };
    Ok((report, rewritten))
}

/// The blocks behind the header block of an opened index.
fn count_blocks(mapped: &MappedIndex<'_>) -> (blocks: u64)
    requires
        mapped.wf(),
    ensures
        blocks == mapped.fields.data_blocks(),
{
    proof {
        mapped.lemma_wf();
    }
    if mapped.fields.nodes_per_block > 0 {
        arithmetic::div_ceil_u64(mapped.fields.num_points, mapped.fields.nodes_per_block)
    } else {
        proof {
            let blocks = mapped.fields.data_blocks();
            let size = mapped.fields.block_size as int;
            let per_node = mapped.fields.blocks_per_node();
            arithmetic::lemma_div_ceil(mapped.fields.node_len as int, size);
            assert(0 <= blocks) by (nonlinear_arith)
                requires
                    blocks == mapped.fields.num_points * per_node,
                    per_node >= 0,
                    mapped.fields.num_points >= 0,
            ;
            assert(blocks <= size * (blocks + 1)) by (nonlinear_arith)
                requires
                    size >= 1,
                    blocks >= 0,
            ;
        }
        mapped.fields.num_points * arithmetic::div_ceil_u64(
            mapped.fields.node_len,
            mapped.fields.block_size,
        )
    }
}

/// Rewrite to graph layout 1.1 using the default `<output>.layout` sidecar.
pub fn rewrite_graph_aware_layout(
    source: &[u8],
    source_index: &str,
    output_index: &str,
    facts: PathFacts,
) -> (result: Result<(LayoutReport, RewrittenIndex), LayoutError>)
    ensures
        match result {
            Ok((report, rewritten)) => paths_allow(facts) && index::open_fault(source@) is None
                && rewrite_result(
                source@,
                source_index@,
                output_index@,
                output_index@ + ".layout"@,
                report,
                rewritten,
            ),
            Err(error) => if paths_allow(facts) {
                rewrite_error(source@, error)
            } else {
                path_error(output_index@, output_index@ + ".layout"@, facts, error)
            },
        },
{
    let sidecar = sidecar::default_sidecar_path(output_index);
    rewrite_graph_aware_layout_to(source, source_index, output_index, sidecar.as_str(), facts)
}

/// As many nodes go into a block as the index has in a block, and one where a block holds no
/// whole record.
pub proof fn lemma_block_capacity(fields: StructuralFields)
    ensures
        fields.nodes_per_block > 0 ==> block_capacity(fields) == fields.nodes_per_block,
        fields.nodes_per_block == 0 ==> block_capacity(fields) == 1,
{
}

/// What a graph-aware mapping does: it sends the nodes to as many slots, one to one, and the
/// slots follow the blocks in their order, block by block and node by node.
pub proof fn lemma_slots_follow_blocks(
    adjacency: Seq<Seq<u32>>,
    capacity: nat,
    medoid: u32,
    blocks: Seq<Seq<u32>>,
    order: Seq<usize>,
    slots: Seq<u32>,
    node: u32,
)
    requires
        gives_slots(adjacency, capacity, medoid, blocks, order, slots),
        adjacency.len() <= u32::MAX,
        node < adjacency.len(),
    ensures
        ({
            let placed = Seq::new(order.len(), |at: int| blocks[order[at] as int]).flatten();
            &&& order.len() == blocks.len()
            &&& order.no_duplicates()
            &&& slots.len() == adjacency.len()
            &&& slots.no_duplicates()
            &&& placed.len() == adjacency.len()
            &&& slots[node as int] < adjacency.len()
            &&& placed[slots[node as int] as int] == node
        }),
{
    mapping::lemma_mapping_of_packing(adjacency, capacity, blocks, medoid, order);
    mapping::lemma_order_is_permutation(adjacency, blocks, medoid, order);
    packing::lemma_nodes_of_is_flatten(mapping::ordered_blocks(blocks, order));
    assert(mapping::ordered_blocks(blocks, order) =~= Seq::new(
        order.len(),
        |at: int| blocks[order[at] as int],
    ));
}

/// The distances of an index under a mapping are those of all its edges, node by node and
/// neighbor by neighbor: between the blocks in which the records of the two ends start.
pub proof fn lemma_distances_of_all_edges(mapped: &MappedIndex<'_>, slots: Seq<u32>)
    requires
        mapped.wf(),
    ensures
        index_distances(mapped, slots) == Seq::new(
            mapped.fields.num_points as nat,
            |node: int|
                Seq::new(
                    mapped.adjacency()[node].len(),
                    |at: int|
                        {
                            let size = mapped.fields.block_size as int;
                            let from = index::record_start(mapped.fields, slots[node] as int)
                                / size;
                            let to = index::record_start(
                                mapped.fields,
                                slots[mapped.adjacency()[node][at] as int] as int,
                            ) / size;
                            if from < to {
                                to - from
                            } else {
                                from - to
                            }
                        },
                ),
        ).flatten(),
{
    mapped.lemma_wf();
    let rows = Seq::new(
        mapped.fields.num_points as nat,
        |node: int|
            Seq::new(
                mapped.adjacency()[node].len(),
                |at: int|
                    {
                        let size = mapped.fields.block_size as int;
                        let from = index::record_start(mapped.fields, slots[node] as int) / size;
                        let to = index::record_start(
                            mapped.fields,
                            slots[mapped.adjacency()[node][at] as int] as int,
                        ) / size;
                        if from < to {
                            to - from
                        } else {
                            from - to
                        }
                    },
            ),
    );
    lemma_distances_of_first(mapped, slots, rows, mapped.fields.num_points as nat);
    assert(rows.take(mapped.fields.num_points as int) =~= rows);
}

/// The distances of the first nodes are the first rows.
proof fn lemma_distances_of_first(
    mapped: &MappedIndex<'_>,
    slots: Seq<u32>,
    rows: Seq<Seq<int>>,
    count: nat,
)
    requires
        index::fields_fit(mapped.fields),
        count <= rows.len(),
        rows.len() <= mapped.adjacency().len(),
        forall|node: int|
            0 <= node < rows.len() ==> (#[trigger] rows[node]).len()
                == mapped.adjacency()[node].len(),
        forall|node: int, at: int|
            #![trigger rows[node][at]]
            0 <= node < rows.len() && 0 <= at < rows[node].len() ==> rows[node][at] == {
                let size = mapped.fields.block_size as int;
                let from = index::record_start(mapped.fields, slots[node] as int) / size;
                let to = index::record_start(
                    mapped.fields,
                    slots[mapped.adjacency()[node][at] as int] as int,
                ) / size;
                if from < to {
                    to - from
                } else {
                    from - to
                }
            },
    ensures
        quality::edge_distances(
            mapped.fields,
            block_capacity(mapped.fields) as int,
            slots,
            mapped.adjacency(),
            count,
        ) == rows.take(count as int).flatten(),
    decreases count,
{
    let fields = mapped.fields;
    let capacity = block_capacity(fields) as int;
    rows.take(count as int).lemma_flatten_and_flatten_alt_are_equivalent();
    if count > 0 {
        let before = (count - 1) as nat;
        lemma_distances_of_first(mapped, slots, rows, before);
        rows.take(before as int).lemma_flatten_and_flatten_alt_are_equivalent();
        assert(rows.take(count as int).drop_last() =~= rows.take(before as int));
        quality::lemma_edges_are_measured_between_records(
            fields,
            capacity,
            slots,
            mapped.adjacency(),
            before,
        );
        let first = quality::edge_distances(fields, capacity, slots, mapped.adjacency(), before);
        let all = quality::edge_distances(fields, capacity, slots, mapped.adjacency(), count);
        let list = mapped.adjacency()[before as int];
        let row = rows[before as int];
        assert forall|at: int| 0 <= at < row.len() implies all[first.len() + at] == row[at] by {
            assert(rows[before as int][at] == row[at]);
            let neighbor = list[at];
        }
        assert(all =~= first + row) by {
            assert(all.take(first.len() as int) == first);
            assert forall|at: int| 0 <= at < first.len() implies all[at] == first[at] by {
                assert(all.take(first.len() as int)[at] == first[at]);
            }
        }
    }
}

/// What a report compares: the index as it is, with every node in the slot of its own number,
/// and the index with the nodes in the slots that the mapping gives; both have all edges.
pub proof fn lemma_report_compares_layouts(
    mapped: &MappedIndex<'_>,
    slots: Seq<u32>,
    source_index: Seq<char>,
    output_index: Seq<char>,
    sidecar: Seq<char>,
    report: LayoutReport,
    node: u32,
    less: int,
)
    requires
        mapped.wf(),
        is_report(mapped, slots, source_index, output_index, sidecar, report),
        node < mapped.fields.num_points,
    ensures
        report.num_points == mapped.adjacency().len(),
        report.num_edges == mapped.adjacency().flatten().len(),
        report.before.edges == report.num_edges,
        report.after.edges == report.num_edges,
        report.mapping_bytes == 4 * report.num_points,
        report.source_size == report.output_size,
        report.output_size == report.block_size * (report.num_blocks + 1),
        report.capacity == 1 || report.capacity == mapped.fields.nodes_per_block,
        report.deterministic_algorithm@
            == "deterministic greedy outgoing-edge packing; lowest-ID ties; deterministic weighted inter-block ordering from the medoid"@,
        identity(mapped.fields.num_points as nat).len() == mapped.fields.num_points,
        identity(mapped.fields.num_points as nat)[node as int] == node,
{
    let count = mapped.fields.num_points as nat;
    mapped.lemma_wf();
    lemma_distances_of_all_edges(mapped, identity(count));
    lemma_distances_of_all_edges(mapped, slots);
    quality::lemma_quality_summarizes(
        report.before,
        index_distances(mapped, identity(count)),
        less,
    );
    quality::lemma_quality_summarizes(report.after, index_distances(mapped, slots), less);
    lemma_edge_count(mapped, identity(count), count);
    lemma_edge_count(mapped, slots, count);
    assert(mapped.adjacency().take(count as int) =~= mapped.adjacency());
}

/// There is one distance for every neighbor of the first nodes.
proof fn lemma_edge_count(mapped: &MappedIndex<'_>, slots: Seq<u32>, count: nat)
    requires
        count <= mapped.adjacency().len(),
    ensures
        quality::edge_distances(
            mapped.fields,
            block_capacity(mapped.fields) as int,
            slots,
            mapped.adjacency(),
            count,
        ).len() == mapped.adjacency().take(count as int).flatten().len(),
    decreases count,
{
    let lists = mapped.adjacency().take(count as int);
    lists.lemma_flatten_and_flatten_alt_are_equivalent();
    if count > 0 {
        let fewer = mapped.adjacency().take(count - 1);
        lemma_edge_count(mapped, slots, (count - 1) as nat);
        fewer.lemma_flatten_and_flatten_alt_are_equivalent();
        assert(lists.drop_last() =~= fewer);
    }
}

/// Paths allow a rewrite exactly if neither output exists and the paths are different; where
/// the output exists, that is reported first.
pub proof fn lemma_paths_are_checked(
    output_index: Seq<char>,
    sidecar: Seq<char>,
    facts: PathFacts,
    error: LayoutError,
)
    ensures
        paths_allow(facts) <==> !(facts.output_exists || facts.sidecar_exists
            || !facts.paths_distinct),
        path_error(output_index, sidecar, facts, error) ==> !paths_allow(facts),
        path_error(output_index, sidecar, facts, error) && facts.output_exists
            ==> error is AlreadyExists && error->AlreadyExists_0@ == output_index,
{
}

} // verus!
