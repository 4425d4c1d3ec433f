//! How close together the ends of the edges lie.
use crate::arithmetic;
use crate::layout::fields::StructuralFields;
use crate::layout::index;
use crate::layout::index::MappedIndex;
use vstd::prelude::*;

verus! {

/// Graph edge locality for one physical layout: how many edges stay in their
/// block, how many there are, and the sum and two percentiles of the distances
/// in blocks between their ends.
#[derive(Debug, Clone, Copy, PartialEq, Eq, Structural)]
pub struct LayoutQuality {
    pub same_block_edges: u64,
    pub edges: u64,
    pub graph_edge_block_distance_sum: u128,
    pub graph_edge_block_distance_p50: u64,
    pub graph_edge_block_distance_p95: u64,
}

/// The block that the record in `slot` starts in.
pub open spec fn block_of_slot(fields: StructuralFields, capacity: int, slot: int) -> int {
    if fields.nodes_per_block > 0 {
        slot / capacity
    } else {
        slot * fields.blocks_per_node()
    }
}

/// The distance between two blocks.
pub open spec fn distance(left: int, right: int) -> int {
    if left < right {
        right - left
    } else {
        left - right
    }
}

/// The distances from a node, in `slot`, to the nodes of `list`.
pub open spec fn list_distances(
    fields: StructuralFields,
    capacity: int,
    mapping: Seq<u32>,
    slot: int,
    list: Seq<u32>,
) -> Seq<int> {
    Seq::new(
        list.len(),
        |at: int|
            distance(
                block_of_slot(fields, capacity, slot),
                block_of_slot(fields, capacity, mapping[list[at] as int] as int),
            ),
    )
}

/// The distances of all edges of the first `count` nodes.
pub open spec fn edge_distances(
    fields: StructuralFields,
    capacity: int,
    mapping: Seq<u32>,
    adjacency: Seq<Seq<u32>>,
    count: nat,
) -> Seq<int>
    decreases count,
{
    if count == 0 {
        Seq::empty()
    } else {
        edge_distances(fields, capacity, mapping, adjacency, (count - 1) as nat) + list_distances(
            fields,
            capacity,
            mapping,
            mapping[count - 1] as int,
            adjacency[count - 1],
        )
    }
}

/// How many distances are `value`.
pub open spec fn count_of(distances: Seq<int>, value: int) -> nat
    decreases distances.len(),
{
    if distances.len() == 0 {
        0
    } else {
        count_of(distances.drop_last(), value) + if distances.last() == value {
            1nat
        } else {
            0nat
        }
    }
}

/// How many distances are at most `limit`.
pub open spec fn count_to(distances: Seq<int>, limit: int) -> nat
    decreases distances.len(),
{
    if distances.len() == 0 {
        0
    } else {
        count_to(distances.drop_last(), limit) + if distances.last() <= limit {
            1nat
        } else {
            0nat
        }
    }
}

/// The sum of the distances.
pub open spec fn sum_of(distances: Seq<int>) -> int
    decreases distances.len(),
{
    if distances.len() == 0 {
        0
    } else {
        sum_of(distances.drop_last()) + distances.last()
    }
}

/// How many distances must not exceed a percentile.
pub open spec fn rank(count: int, percent: int) -> int {
    arithmetic::div_ceil(count * percent, 100)
}

/// `value` is the least distance that `percent` percent of the distances do not
/// exceed, or 0 if there are none.
pub open spec fn is_percentile(distances: Seq<int>, percent: int, value: int) -> bool {
    if distances.len() == 0 {
        value == 0
    } else {
        &&& 0 <= value
        &&& rank(distances.len() as int, percent) <= count_to(distances, value)
        &&& forall|smaller: int|
            0 <= smaller < value ==> #[trigger] count_to(distances, smaller) < rank(
                distances.len() as int,
                percent,
            )
    }
}

/// `quality` describes the distances.
pub open spec fn describes(quality: LayoutQuality, distances: Seq<int>) -> bool {
    &&& quality.same_block_edges == count_of(distances, 0)
    &&& quality.edges == distances.len()
    &&& quality.graph_edge_block_distance_sum == sum_of(distances)
    &&& is_percentile(distances, 50, quality.graph_edge_block_distance_p50 as int)
    &&& is_percentile(distances, 95, quality.graph_edge_block_distance_p95 as int)
}

/// Counts up to a limit grow by the count of the next value.
proof fn lemma_count_to_step(distances: Seq<int>, limit: int)
    ensures
        count_to(distances, limit) == count_to(distances, limit - 1) + count_of(distances, limit),
    decreases distances.len(),
{
    if distances.len() > 0 {
        lemma_count_to_step(distances.drop_last(), limit);
    }
}

/// Nothing is below zero, and everything is up to a bound.
proof fn lemma_count_to_ends(distances: Seq<int>, bound: int)
    requires
        forall|at: int| 0 <= at < distances.len() ==> 0 <= #[trigger] distances[at] < bound,
    ensures
        count_to(distances, -1) == 0,
        count_to(distances, bound - 1) == distances.len(),
    decreases distances.len(),
{
    if distances.len() > 0 {
        let front = distances.drop_last();
        assert forall|at: int| 0 <= at < front.len() implies 0 <= #[trigger] front[at] < bound by {
            assert(front[at] == distances[at]);
        }
        lemma_count_to_ends(front, bound);
        assert(0 <= distances[distances.len() - 1] < bound);
    }
}

/// A count is at most the number of distances.
proof fn lemma_count_bound(distances: Seq<int>, value: int)
    ensures
        count_of(distances, value) <= distances.len(),
        count_to(distances, value) <= distances.len(),
    decreases distances.len(),
{
    if distances.len() > 0 {
        lemma_count_bound(distances.drop_last(), value);
    }
}

/// What is measured of the distances.
struct Tally {
    same_block: u64,
    edges: u64,
    sum: u128,
    histogram: Vec<u64>,
}

impl Tally {
    /// The tally is that of `distances`, which are all below the histogram's length.
    spec fn counts(self, distances: Seq<int>) -> bool {
        &&& self.same_block == count_of(distances, 0)
        &&& self.edges == distances.len()
        &&& self.sum == sum_of(distances)
        &&& self.sum <= self.edges * u64::MAX
        &&& forall|at: int|
            0 <= at < distances.len() ==> 0 <= #[trigger] distances[at] < self.histogram@.len()
        &&& forall|value: int|
            0 <= value < self.histogram@.len() ==> #[trigger] self.histogram@[value] == count_of(
                distances,
                value,
            )
    }

    /// Adds one distance.
    fn record(&mut self, value: u64, Ghost(distances): Ghost<Seq<int>>)
        requires
            old(self).counts(distances),
            value < old(self).histogram@.len(),
            distances.len() < u64::MAX,
        ensures
            final(self).counts(distances.push(value as int)),
            final(self).histogram@.len() == old(self).histogram@.len(),
    {
        let ghost grown = distances.push(value as int);
        proof {
            assert(grown.drop_last() =~= distances);
            lemma_count_bound(distances, 0);
            lemma_count_bound(distances, value as int);
            let edges = self.edges as int;
            let most = u64::MAX as int;
            assert((edges + 1) * most == edges * most + most) by (nonlinear_arith);
            assert((edges + 1) * most <= most * most) by (nonlinear_arith)
                requires
                    0 <= edges < most,
            ;
            assert(most * most < 0x1_0000_0000_0000_0000_0000_0000_0000_0000) by (nonlinear_arith)
                requires
                    most == 0xffff_ffff_ffff_ffff,
            ;
        }
        if value == 0 {
            self.same_block = self.same_block + 1;
        }
        self.edges = self.edges + 1;
        self.sum = self.sum + value as u128;
        let ghost before = self.histogram@;
        assert(value < self.histogram.len());
        let count: u64 = self.histogram[value as usize];
        assert(count == count_of(distances, value as int));
        self.histogram[value as usize] = count + 1;
        proof {
            assert forall|other: int| 0 <= other < self.histogram@.len() implies #[trigger] self.histogram@[other]
                == count_of(grown, other) by {
                assert(before[other] == count_of(distances, other));
            }
            assert forall|at: int| 0 <= at < grown.len() implies 0 <= #[trigger] grown[at]
                < self.histogram@.len() by {
                if at < distances.len() {
                    assert(grown[at] == distances[at]);
                }
            }
        }
    }

    /// The least distance that `percent` percent of the distances do not exceed.
    fn percentile(&self, percent: u64, Ghost(distances): Ghost<Seq<int>>) -> (value: u64)
        requires
            self.counts(distances),
            percent <= 100,
        ensures
            is_percentile(distances, percent as int, value as int),
    {
        if self.edges == 0 {
            return 0;
        }
        proof {
            let total = self.edges as int * percent as int;
            assert(0 <= total <= self.edges * 100) by (nonlinear_arith)
                requires
                    total == self.edges * percent,
                    percent <= 100,
            ;
            arithmetic::lemma_div_ceil(total, 100);
            lemma_count_to_ends(distances, self.histogram@.len() as int);
        }
        let product: u128 = self.edges as u128 * percent as u128;
        let wanted: u128 = if product % 100 == 0 {
            product / 100
        } else {
            product / 100 + 1
        };
        assert(wanted == rank(distances.len() as int, percent as int));
        assert(wanted <= self.edges);
        let mut cumulative: u64 = 0;
        let mut value: usize = 0;
        while value < self.histogram.len()
            invariant
                value <= self.histogram@.len(),
                self.counts(distances),
                cumulative == count_to(distances, value - 1),
                wanted == rank(distances.len() as int, percent as int),
                wanted <= self.edges,
                distances.len() > 0,
                forall|smaller: int|
                    0 <= smaller < value ==> #[trigger] count_to(distances, smaller) < wanted,
                count_to(distances, self.histogram@.len() - 1) == distances.len(),
            decreases self.histogram@.len() - value,
        {
            proof {
                lemma_count_to_step(distances, value as int);
                lemma_count_bound(distances, value as int);
                assert(self.histogram@[value as int] == count_of(distances, value as int));
            }
            cumulative = cumulative + self.histogram[value];
            if cumulative as u128 >= wanted {
                return value as u64;
            }
            value += 1;
        }
        proof {
            assert(0 <= distances[0] < self.histogram@.len());
            assert(count_to(distances, self.histogram@.len() - 1) < wanted);
        }
        0
    }
}

/// The number of edges of the first `count` nodes is bounded by where the record
/// of the next one can start.
proof fn lemma_edge_bound(mapped: &MappedIndex<'_>, capacity: int, mapping: Seq<u32>, count: nat)
    requires
        mapped.wf(),
        count <= mapped.fields.num_points,
    ensures
        edge_distances(mapped.fields, capacity, mapping, mapped.adjacency(), count).len() <= if count
            == 0 {
            0
        } else {
            index::record_end(mapped.fields, count - 1)
        },
    decreases count,
{
    if count > 0 {
        let last = count - 1;
        mapped.lemma_wf();
        lemma_edge_bound(mapped, capacity, mapping, last as nat);
        index::lemma_record_in_index(mapped.fields, last as int);
        assert(index::node_fits(
            mapped.bytes@,
            mapped.fields,
            mapped.vector_bytes as int,
            last as int,
        ));
        if last > 0 {
            index::lemma_records_apart(mapped.fields, last - 1, last as int);
        }
    }
}

/// A slot below the number of points is in a block below the number of blocks.
proof fn lemma_block_in_range(fields: StructuralFields, capacity: int, slot: int, blocks: int)
    requires
        index::fields_fit(fields),
        capacity > 0,
        0 <= slot < fields.num_points,
        blocks == if fields.nodes_per_block > 0 {
            arithmetic::div_ceil(fields.num_points as int, capacity)
        } else {
            fields.num_points * fields.blocks_per_node()
        },
    ensures
        0 <= block_of_slot(fields, capacity, slot) < blocks,
{
    let n = fields.num_points as int;
    if fields.nodes_per_block > 0 {
        arithmetic::lemma_div_ceil(n, capacity);
        assert(0 <= slot / capacity < blocks) by (nonlinear_arith)
            requires
                0 <= slot < n,
                n <= blocks * capacity,
                0 < capacity,
        ;
    } else {
        let per_node = fields.blocks_per_node();
        arithmetic::lemma_div_ceil(fields.node_len as int, fields.block_size as int);
        assert(0 <= slot * per_node < n * per_node) by (nonlinear_arith)
            requires
                0 <= slot < n,
                0 < per_node,
        ;
    }
}

/// The block that the record in `slot` starts in.
fn slot_block(
    fields: &StructuralFields,
    capacity: u64,
    blocks_per_node: u64,
    slot: u32,
    Ghost(blocks): Ghost<int>,
) -> (block: u64)
    requires
        index::fields_fit(*fields),
        capacity > 0,
        slot < fields.num_points,
        blocks_per_node == fields.blocks_per_node(),
        blocks <= u64::MAX,
        blocks == if fields.nodes_per_block > 0 {
            arithmetic::div_ceil(fields.num_points as int, capacity as int)
        } else {
            fields.num_points * fields.blocks_per_node()
        },
    ensures
        block == block_of_slot(*fields, capacity as int, slot as int),
        block < blocks,
{
    proof {
        lemma_block_in_range(*fields, capacity as int, slot as int, blocks);
    }
    if fields.nodes_per_block > 0 {
        slot as u64 / capacity
    } else {
        slot as u64 * blocks_per_node
    }
}

/// Measures the edges of an index under a mapping of its nodes to slots, with
/// `capacity` slots to a block.
pub fn quality(mapped: &MappedIndex<'_>, mapping: &[u32], capacity: u64) -> (result: (
    LayoutQuality,
    u64,
))
    requires
        mapped.wf(),
        capacity > 0,
        mapping@.len() == mapped.fields.num_points,
        forall|node: int| 0 <= node < mapping@.len() ==> #[trigger] mapping@[node] < mapping@.len(),
    ensures
        ({
            let distances = edge_distances(
                mapped.fields,
                capacity as int,
                mapping@,
                mapped.adjacency(),
                mapped.fields.num_points as nat,
            );
            describes(result.0, distances) && result.1 == distances.len()
        }),
{
    let ghost adjacency = mapped.adjacency();
    let ghost count = mapped.fields.num_points;
    proof {
        mapped.lemma_wf();
        mapped.lemma_point_count();
        arithmetic::lemma_div_ceil(
            mapped.fields.node_len as int,
            mapped.fields.block_size as int,
        );
        arithmetic::lemma_div_ceil(count as int, capacity as int);
        let blocks = mapped.fields.data_blocks();
        let size = mapped.fields.block_size as int;
        if mapped.fields.nodes_per_block == 0 {
            let per_node = mapped.fields.blocks_per_node();
            assert(0 <= blocks) by (nonlinear_arith)
                requires
                    blocks == count * per_node,
                    count >= 0,
                    per_node >= 0,
            ;
            assert(blocks <= size * (blocks + 1)) by (nonlinear_arith)
                requires
                    size >= 1,
                    blocks >= 0,
            ;
        }
    }
    let blocks_per_node: u64 = arithmetic::div_ceil_u64(
        mapped.fields.node_len,
        mapped.fields.block_size,
    );
    let physical_blocks: u64 = if mapped.fields.nodes_per_block > 0 {
        arithmetic::div_ceil_u64(mapped.fields.num_points, capacity)
    } else {
        mapped.fields.num_points * blocks_per_node
    };
    let mut tally = Tally {
        same_block: 0,
        edges: 0,
        sum: 0,
        histogram: vec![0u64; physical_blocks as usize],
    };
    let mut node: u32 = 0;
    while (node as u64) < mapped.fields.num_points
        invariant
            mapped.wf(),
            index::fields_fit(mapped.fields),
            capacity > 0,
            adjacency == mapped.adjacency(),
            adjacency.len() == count,
            count == mapped.fields.num_points,
            count <= u32::MAX,
            node <= count,
            mapping@.len() == count,
            forall|node: int|
                0 <= node < mapping@.len() ==> #[trigger] mapping@[node] < mapping@.len(),
            blocks_per_node == mapped.fields.blocks_per_node(),
            physical_blocks == if mapped.fields.nodes_per_block > 0 {
                arithmetic::div_ceil(count as int, capacity as int)
            } else {
                count * mapped.fields.blocks_per_node()
            },
            tally.histogram@.len() == physical_blocks,
            tally.counts(
                edge_distances(mapped.fields, capacity as int, mapping@, adjacency, node as nat),
            ),
        decreases count - node,
    {
        let slot: u32 = mapping[node as usize];
        let source: u64 = slot_block(
            &mapped.fields,
            capacity,
            blocks_per_node,
            slot,
            Ghost(physical_blocks as int),
        );
        let list = mapped.neighbors(node);
        let ghost before = edge_distances(
            mapped.fields,
            capacity as int,
            mapping@,
            adjacency,
            node as nat,
        );
        let ghost steps = list_distances(
            mapped.fields,
            capacity as int,
            mapping@,
            slot as int,
            list@,
        );
        let ghost after = edge_distances(
            mapped.fields,
            capacity as int,
            mapping@,
            adjacency,
            (node + 1) as nat,
        );
        proof {
            assert(after == before + steps);
            assert(before + steps.take(0) =~= before);
            lemma_edge_bound(mapped, capacity as int, mapping@, (node + 1) as nat);
            index::lemma_record_in_index(mapped.fields, node as int);
        }
        let mut at: usize = 0;
        while at < list.len()
            invariant
                mapped.wf(),
                index::fields_fit(mapped.fields),
                capacity > 0,
                count == mapped.fields.num_points,
                node < count,
                at <= list@.len(),
                list@ == mapped.adjacency()[node as int],
                mapping@.len() == count,
                forall|node: int|
                    0 <= node < mapping@.len() ==> #[trigger] mapping@[node] < mapping@.len(),
                blocks_per_node == mapped.fields.blocks_per_node(),
                physical_blocks == if mapped.fields.nodes_per_block > 0 {
                    arithmetic::div_ceil(count as int, capacity as int)
                } else {
                    count * mapped.fields.blocks_per_node()
                },
                tally.histogram@.len() == physical_blocks,
                source == block_of_slot(mapped.fields, capacity as int, slot as int),
                source < physical_blocks,
                steps == list_distances(
                    mapped.fields,
                    capacity as int,
                    mapping@,
                    slot as int,
                    list@,
                ),
                before.len() + steps.len() <= u64::MAX,
                tally.counts(before + steps.take(at as int)),
            decreases list@.len() - at,
        {
            let neighbor: u32 = list[at];
            proof {
                mapped.lemma_wf();
                assert(mapped.adjacency()[node as int][at as int] < count);
                assert(mapping@[neighbor as int] < mapping@.len());
            }
            let target: u64 = slot_block(
                &mapped.fields,
                capacity,
                blocks_per_node,
                mapping[neighbor as usize],
                Ghost(physical_blocks as int),
            );
            let value: u64 = if source < target {
                target - source
            } else {
                source - target
            };
            let ghost seen = before + steps.take(at as int);
            tally.record(value, Ghost(seen));
            proof {
                assert(steps[at as int] == value);
                assert(before + steps.take(at + 1) =~= seen.push(value as int));
            }
            at += 1;
        }
        assert(steps.take(at as int) =~= steps);
        node += 1;
    }
    let ghost distances = edge_distances(
        mapped.fields,
        capacity as int,
        mapping@,
        adjacency,
        count as nat,
    );
    let p50: u64 = tally.percentile(50, Ghost(distances));
    let p95: u64 = tally.percentile(95, Ghost(distances));
    (
        LayoutQuality {
            same_block_edges: tally.same_block,
            edges: tally.edges,
            graph_edge_block_distance_sum: tally.sum,
            graph_edge_block_distance_p50: p50,
            graph_edge_block_distance_p95: p95,
        },
        tally.edges,
    )
}

/// The block given for a slot is the block that its record starts in, counted behind the
/// header block, whether several records share a block or a record reaches into several.
pub proof fn lemma_block_of_slot_holds_record(fields: StructuralFields, capacity: int, slot: int)
    requires
        index::fields_fit(fields),
        fields.nodes_per_block > 0 ==> capacity == fields.nodes_per_block,
        0 <= slot,
    ensures
        block_of_slot(fields, capacity, slot) == index::record_start(fields, slot)
            / fields.block_size as int - 1,
{
    let size = fields.block_size as int;
    let start = index::record_start(fields, slot);
    let block = block_of_slot(fields, capacity, slot);
    if fields.nodes_per_block > 0 {
        index::lemma_slot_in_block(slot, capacity, fields.node_len as int, size);
        let within = (slot % capacity) * fields.node_len;
        assert(start == (block + 1) * size + within) by (nonlinear_arith)
            requires
                start == size + block * size + within,
        ;
        arithmetic::lemma_quotient_and_rest(block + 1, within, size);
    } else {
        let per_node = fields.blocks_per_node();
        assert(start == (block + 1) * size + 0) by (nonlinear_arith)
            requires
                start == size + slot * (per_node * size),
                block == slot * per_node,
        ;
        arithmetic::lemma_quotient_and_rest(block + 1, 0, size);
    }
}

/// The edges of an index are measured node by node, each edge once. Behind the distances of
/// the nodes before it, a node has one for every neighbor: the number of blocks between the
/// block in which its record starts and the one in which the neighbor's record starts.
pub proof fn lemma_edges_are_measured_between_records(
    fields: StructuralFields,
    capacity: int,
    mapping: Seq<u32>,
    adjacency: Seq<Seq<u32>>,
    node: nat,
)
    requires
        index::fields_fit(fields),
        fields.nodes_per_block > 0 ==> capacity == fields.nodes_per_block,
    ensures
        edge_distances(fields, capacity, mapping, adjacency, 0) == Seq::<int>::empty(),
        ({
            let before = edge_distances(fields, capacity, mapping, adjacency, node);
            let after = edge_distances(fields, capacity, mapping, adjacency, node + 1);
            let size = fields.block_size as int;
            let list = adjacency[node as int];
            let start = index::record_start(fields, mapping[node as int] as int);
            &&& after.len() == before.len() + list.len()
            &&& after.take(before.len() as int) == before
            &&& forall|at: int|
                #![trigger list[at]]
                0 <= at < list.len() ==> {
                    let other = index::record_start(fields, mapping[list[at] as int] as int);
                    let gap = after[before.len() + at];
                    &&& gap >= 0
                    &&& gap == start / size - other / size || gap == other / size - start / size
                }
        }),
{
    let before = edge_distances(fields, capacity, mapping, adjacency, node);
    let after = edge_distances(fields, capacity, mapping, adjacency, node + 1);
    let list = adjacency[node as int];
    assert(after.take(before.len() as int) =~= before);
    lemma_block_of_slot_holds_record(fields, capacity, mapping[node as int] as int);
    assert forall|at: int|
        #![trigger list[at]]
        0 <= at < list.len() implies {
        let size = fields.block_size as int;
        let start = index::record_start(fields, mapping[node as int] as int);
        let other = index::record_start(fields, mapping[list[at] as int] as int);
        let gap = after[before.len() + at];
        &&& gap >= 0
        &&& gap == start / size - other / size || gap == other / size - start / size
    } by {
        lemma_block_of_slot_holds_record(fields, capacity, mapping[list[at] as int] as int);
    }
}

/// What a measurement says of the distances: how many are zero, how many there are, their
/// sum, and the least distances that half of them and 95 of a hundred do not exceed, or 0 if
/// there are none.
pub proof fn lemma_quality_summarizes(quality: LayoutQuality, distances: Seq<int>, less: int)
    requires
        describes(quality, distances),
    ensures
        quality.edges == distances.len(),
        quality.same_block_edges == distances.filter(|distance: int| distance == 0).len(),
        quality.graph_edge_block_distance_sum == distances.fold_left(
            0int,
            |sum: int, distance: int| sum + distance,
        ),
        ({
            let half = quality.graph_edge_block_distance_p50 as int;
            &&& 2 * distances.filter(|distance: int| distance <= half).len() >= distances.len()
            &&& 0 <= less < half ==> 2 * distances.filter(|distance: int| distance <= less).len()
                < distances.len()
        }),
        ({
            let most = quality.graph_edge_block_distance_p95 as int;
            &&& 100 * distances.filter(|distance: int| distance <= most).len() >= 95
                * distances.len()
            &&& 0 <= less < most ==> 100 * distances.filter(
                |distance: int| distance <= less,
            ).len() < 95 * distances.len()
        }),
        distances.len() == 0 ==> quality.graph_edge_block_distance_p50 == 0
            && quality.graph_edge_block_distance_p95 == 0,
{
    let half = quality.graph_edge_block_distance_p50 as int;
    let most = quality.graph_edge_block_distance_p95 as int;
    let count = distances.len() as int;
    lemma_counts_are_filters(distances, 0);
    lemma_counts_are_filters(distances, half);
    lemma_counts_are_filters(distances, most);
    lemma_counts_are_filters(distances, less);
    lemma_sum_is_fold(distances);
    arithmetic::lemma_div_ceil(count * 50, 100);
    arithmetic::lemma_div_ceil(count * 95, 100);
    if 0 <= less < half {
        assert(count_to(distances, less) < rank(count, 50));
    }
    if 0 <= less < most {
        assert(count_to(distances, less) < rank(count, 95));
    }
}

/// Counts are the lengths of the distances picked out.
proof fn lemma_counts_are_filters(distances: Seq<int>, value: int)
    ensures
        count_of(distances, value) == distances.filter(|distance: int| distance == value).len(),
        count_to(distances, value) == distances.filter(|distance: int| distance <= value).len(),
    decreases distances.len(),
{
    reveal(Seq::filter);
    if distances.len() > 0 {
        lemma_counts_are_filters(distances.drop_last(), value);
    }
}

/// The sum is that of adding up from the first distance on.
proof fn lemma_sum_is_fold(distances: Seq<int>)
    ensures
        sum_of(distances) == distances.fold_left(
            0int,
            |sum: int, distance: int| sum + distance,
        ),
    decreases distances.len(),
{
    if distances.len() > 0 {
        lemma_sum_is_fold(distances.drop_last());
    }
}

} // verus!
