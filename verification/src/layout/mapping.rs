//! The mapping that packed and ordered blocks give.
use crate::layout::error::InvalidLayout;
use crate::layout::error::LayoutError;
use crate::layout::ordering;
use crate::layout::packing;
use crate::layout::sidecar;
use vstd::prelude::*;

verus! {

/// The blocks in the given order.
pub open spec fn ordered_blocks(blocks: Seq<Seq<u32>>, order: Seq<usize>) -> Seq<Seq<u32>> {
    Seq::new(order.len(), |at: int| blocks[order[at] as int])
}

/// The last position of `node` in `nodes`, or 0.
pub open spec fn last_position(nodes: Seq<u32>, node: u32) -> nat
    decreases nodes.len(),
{
    if nodes.len() == 0 {
        0
    } else if nodes.last() == node {
        (nodes.len() - 1) as nat
    } else {
        last_position(nodes.drop_last(), node)
    }
}

/// The slot of each of `count` nodes: its position among the nodes of the blocks
/// in their order.
pub open spec fn slots(nodes: Seq<u32>, count: nat) -> Seq<u32> {
    Seq::new(count, |node: int| last_position(nodes, node as u32) as u32)
}

/// What making a mapping of `count` nodes comes to.
pub open spec fn mapping_outcome(
    blocks: Seq<Seq<u32>>,
    order: Seq<usize>,
    count: u64,
) -> Result<Seq<u32>, LayoutError> {
    let mapping = slots(packing::nodes_of(ordered_blocks(blocks, order)), count as nat);
    if count > u32::MAX {
        Err(LayoutError::Invalid(InvalidLayout::TooManyPoints))
    } else {
        match sidecar::mapping_fault(mapping, count) {
            Some(fault) => Err(LayoutError::Invalid(fault)),
            None => Ok(mapping),
        }
    }
}

/// Numbers the nodes of the blocks in their order, and checks that this sends
/// `count` nodes to slots one to one.
pub fn make_mapping(blocks: &[Vec<u32>], order: &[usize], count: u64) -> (result: Result<
    Vec<u32>,
    LayoutError,
>)
    requires
        forall|at: int| 0 <= at < order@.len() ==> #[trigger] order@[at] < blocks@.len(),
        ordering::nodes_below(packing::block_views(blocks@), count as int),
        packing::nodes_of(ordered_blocks(packing::block_views(blocks@), order@)).len() <= u32::MAX,
    ensures
        match mapping_outcome(packing::block_views(blocks@), order@, count) {
            Ok(mapping) => result is Ok && result->Ok_0@ == mapping,
            Err(error) => result is Err && result->Err_0 == error,
        },
{
    if count > u32::MAX as u64 {
        return Err(LayoutError::Invalid(InvalidLayout::TooManyPoints));
    }
    let ghost views = packing::block_views(blocks@);
    let ghost parts = ordered_blocks(views, order@);
    let ghost all = packing::nodes_of(parts);
    let mut mapping: Vec<u32> = vec![0u32; count as usize];
    let mut physical: u32 = 0;
    let mut at: usize = 0;
    assert(mapping@ =~= slots(packing::nodes_of(parts.take(0)), count as nat));
    while at < order.len()
        invariant
            at <= order@.len(),
            count <= u32::MAX,
            views == packing::block_views(blocks@),
            views.len() == blocks@.len(),
            parts == ordered_blocks(views, order@),
            all == packing::nodes_of(parts),
            all.len() <= u32::MAX,
            forall|at: int| 0 <= at < order@.len() ==> #[trigger] order@[at] < blocks@.len(),
            ordering::nodes_below(views, count as int),
            physical == packing::nodes_of(parts.take(at as int)).len(),
            mapping@ == slots(packing::nodes_of(parts.take(at as int)), count as nat),
        decreases order@.len() - at,
    {
        let block: &Vec<u32> = &blocks[order[at]];
        let ghost before = packing::nodes_of(parts.take(at as int));
        let ghost after = packing::nodes_of(parts.take(at + 1));
        proof {
            assert(parts.take(at + 1).drop_last() =~= parts.take(at as int));
            assert(after == before + block@);
            lemma_nodes_grow(parts, at + 1);
        }
        let mut within: usize = 0;
        assert(before + block@.take(0) =~= before);
        while within < block.len()
            invariant
                within <= block@.len(),
                at < order@.len(),
                count <= u32::MAX,
                order@[at as int] < views.len(),
                block@ == views[order@[at as int] as int],
                ordering::nodes_below(views, count as int),
                before.len() + block@.len() <= u32::MAX,
                physical == before.len() + within,
                mapping@ == slots(before + block@.take(within as int), count as nat),
            decreases block@.len() - within,
        {
            let logical: u32 = block[within];
            assert(views[order@[at as int] as int][within as int] < count);
            let ghost nodes = before + block@.take(within as int);
            let ghost grown = before + block@.take(within + 1);
            mapping[logical as usize] = physical;
            proof {
                assert(grown =~= nodes.push(logical));
                assert(grown.drop_last() =~= nodes);
                assert(mapping@ =~= slots(grown, count as nat));
            }
            physical += 1;
            within += 1;
        }
        assert(block@.take(within as int) =~= block@);
        at += 1;
    }
    assert(parts.take(at as int) =~= parts);
    match sidecar::validate_mapping(mapping.as_slice(), count) {
        Ok(()) => Ok(mapping),
        Err(error) => Err(error),
    }
}

/// The nodes of some of the blocks are no more than those of all.
proof fn lemma_nodes_grow(blocks: Seq<Seq<u32>>, count: int)
    requires
        0 <= count <= blocks.len(),
    ensures
        packing::nodes_of(blocks.take(count)).len() <= packing::nodes_of(blocks).len(),
    decreases blocks.len() - count,
{
    if count < blocks.len() {
        lemma_nodes_grow(blocks, count + 1);
        assert(blocks.take(count + 1).drop_last() =~= blocks.take(count));
    } else {
        assert(blocks.take(count) =~= blocks);
    }
}

/// The nodes of the blocks are the nodes that some block holds.
proof fn lemma_nodes_contains(blocks: Seq<Seq<u32>>, node: u32)
    ensures
        packing::nodes_of(blocks).contains(node) <==> exists|at: int|
            0 <= at < blocks.len() && (#[trigger] blocks[at]).contains(node),
    decreases blocks.len(),
{
    if blocks.len() > 0 {
        let front = blocks.drop_last();
        let earlier = packing::nodes_of(front);
        let all = packing::nodes_of(blocks);
        lemma_nodes_contains(front, node);
        if all.contains(node) {
            let at = choose|at: int| 0 <= at < all.len() && all[at] == node;
            if at < earlier.len() {
                assert(earlier[at] == node);
                let block = choose|block: int|
                    0 <= block < front.len() && (#[trigger] front[block]).contains(node);
                assert(blocks[block].contains(node));
            } else {
                assert(blocks.last()[at - earlier.len()] == node);
                assert(blocks[blocks.len() - 1].contains(node));
            }
        }
        if exists|at: int| 0 <= at < blocks.len() && (#[trigger] blocks[at]).contains(node) {
            let block = choose|block: int|
                0 <= block < blocks.len() && (#[trigger] blocks[block]).contains(node);
            if block < front.len() {
                assert(front[block].contains(node));
                let at = choose|at: int| 0 <= at < earlier.len() && earlier[at] == node;
                assert(all[at] == node);
            } else {
                let at = choose|at: int|
                    0 <= at < blocks.last().len() && blocks.last()[at] == node;
                assert(all[earlier.len() + at] == node);
            }
        }
    } else {
        assert(!packing::nodes_of(blocks).contains(node));
    }
}

/// The blocks share no node, and none holds a node twice.
spec fn disjoint_blocks(blocks: Seq<Seq<u32>>) -> bool {
    &&& forall|at: int| 0 <= at < blocks.len() ==> (#[trigger] blocks[at]).no_duplicates()
    &&& forall|left: int, right: int, node: u32|
        #![trigger blocks[left].contains(node), blocks[right].contains(node)]
        0 <= left < right < blocks.len() && blocks[left].contains(node)
            ==> !blocks[right].contains(node)
}

/// Distinct nodes come from disjoint blocks, and the other way round.
proof fn lemma_disjoint(blocks: Seq<Seq<u32>>)
    ensures
        packing::nodes_of(blocks).no_duplicates() <==> disjoint_blocks(blocks),
    decreases blocks.len(),
{
    if blocks.len() > 0 {
        let front = blocks.drop_last();
        let earlier = packing::nodes_of(front);
        let last = blocks.last();
        let all = packing::nodes_of(blocks);
        lemma_disjoint(front);
        if all.no_duplicates() {
            assert forall|i: int, j: int| 0 <= i < j < earlier.len() implies earlier[i]
                != earlier[j] by {
                assert(all[i] != all[j]);
            }
            assert(last.no_duplicates()) by {
                assert forall|i: int, j: int| 0 <= i < j < last.len() implies last[i] != last[j] by {
                    assert(all[earlier.len() + i] != all[earlier.len() + j]);
                }
            }
            assert forall|left: int, right: int, node: u32|
                #![trigger blocks[left].contains(node), blocks[right].contains(node)]
                0 <= left < right < blocks.len() && blocks[left].contains(
                    node,
                ) implies !blocks[right].contains(node) by {
                assert(front[left].contains(node));
                if right < front.len() {
                    assert(front[right] == blocks[right]);
                } else if last.contains(node) {
                    lemma_nodes_contains(front, node);
                    let i = choose|i: int| 0 <= i < earlier.len() && earlier[i] == node;
                    let j = choose|j: int| 0 <= j < last.len() && last[j] == node;
                    assert(all[i] != all[earlier.len() + j]);
                }
            }
            assert forall|at: int| 0 <= at < blocks.len() implies (
            #[trigger] blocks[at]).no_duplicates() by {
                if at < front.len() {
                    assert(front[at] == blocks[at]);
                }
            }
        }
        if disjoint_blocks(blocks) {
            assert(disjoint_blocks(front)) by {
                assert forall|at: int| 0 <= at < front.len() implies (
                #[trigger] front[at]).no_duplicates() by {
                    assert(front[at] == blocks[at]);
                }
                assert forall|left: int, right: int, node: u32|
                    #![trigger front[left].contains(node), front[right].contains(node)]
                    0 <= left < right < front.len() && front[left].contains(
                        node,
                    ) implies !front[right].contains(node) by {
                    assert(blocks[left].contains(node));
                    assert(front[right] == blocks[right]);
                }
            }
            assert forall|i: int, j: int| 0 <= i < j < all.len() implies all[i] != all[j] by {
                if j < earlier.len() {
                    assert(earlier[i] != earlier[j]);
                } else if i >= earlier.len() {
                    assert(blocks[blocks.len() - 1].no_duplicates());
                    assert(last[i - earlier.len()] != last[j - earlier.len()]);
                } else {
                    let node = earlier[i];
                    assert(earlier.contains(node));
                    lemma_nodes_contains(front, node);
                    let left = choose|left: int|
                        0 <= left < front.len() && (#[trigger] front[left]).contains(node);
                    assert(blocks[left].contains(node));
                    if all[j] == node {
                        assert(last[j - earlier.len()] == node);
                        assert(blocks[blocks.len() - 1].contains(node));
                    }
                }
            }
        }
    }
}

/// Block `block` stands in the order.
pub open spec fn is_placed(order: Seq<usize>, block: int) -> bool {
    exists|at: int| 0 <= at < order.len() && #[trigger] order[at] == block
}

/// The greedy order holds every block exactly once.
pub proof fn lemma_order_is_permutation(
    adjacency: Seq<Seq<u32>>,
    blocks: Seq<Seq<u32>>,
    medoid: u32,
    order: Seq<usize>,
)
    requires
        ordering::is_order(adjacency, blocks, medoid, order),
    ensures
        order.no_duplicates(),
        forall|at: int| 0 <= at < order.len() ==> #[trigger] order[at] < blocks.len(),
        forall|block: int| 0 <= block < blocks.len() ==> #[trigger] is_placed(order, block),
{
    assert forall|at: int| 0 <= at < order.len() implies #[trigger] order[at] < blocks.len() by {
        if at == 0 {
            ordering::lemma_home_in_range(blocks, medoid);
        } else {
            assert(ordering::follows(adjacency, blocks, order.take(at), order[at]));
        }
    }
    assert forall|i: int, j: int| 0 <= i < j < order.len() implies order[i] != order[j] by {
        assert(ordering::follows(adjacency, blocks, order.take(j), order[j]));
        assert(order.take(j)[i] == order[i]);
    }
    assert(order.no_duplicates());
    let ints = order.map_values(|block: usize| block as int);
    let range = vstd::set_lib::set_int_range(0, blocks.len() as int);
    vstd::set_lib::lemma_int_range(0, blocks.len() as int);
    assert(ints.no_duplicates());
    ints.unique_seq_to_set();
    assert(ints.to_set().subset_of(range)) by {
        assert forall|value: int| ints.to_set().contains(value) implies range.contains(value) by {
            let at = choose|at: int| 0 <= at < ints.len() && ints[at] == value;
            assert(order[at] < blocks.len());
        }
    }
    vstd::set_lib::lemma_subset_equality(ints.to_set(), range);
    assert forall|block: int| 0 <= block < blocks.len() implies #[trigger] is_placed(
        order,
        block,
    ) by {
        assert(range.contains(block));
        let at = choose|at: int| 0 <= at < ints.len() && ints[at] == block;
        assert(order[at] == block);
    }
}

/// Disjoint blocks stay so in any order.
proof fn lemma_parts_disjoint(blocks: Seq<Seq<u32>>, order: Seq<usize>)
    requires
        disjoint_blocks(blocks),
        order.no_duplicates(),
        forall|at: int| 0 <= at < order.len() ==> #[trigger] order[at] < blocks.len(),
    ensures
        disjoint_blocks(ordered_blocks(blocks, order)),
{
    let parts = ordered_blocks(blocks, order);
    assert forall|at: int| 0 <= at < parts.len() implies (#[trigger] parts[at]).no_duplicates() by {
        assert(blocks[order[at] as int].no_duplicates());
    }
    assert forall|left: int, right: int, node: u32|
        #![trigger parts[left].contains(node), parts[right].contains(node)]
        0 <= left < right < parts.len() && parts[left].contains(
            node,
        ) implies !parts[right].contains(node) by {
        let i = order[left] as int;
        let j = order[right] as int;
        assert(order[left] != order[right]);
        assert(blocks[i].contains(node));
        if blocks[j].contains(node) {
            if i < j {
                assert(!blocks[j].contains(node));
            } else {
                assert(!blocks[i].contains(node));
            }
        }
    }
}

/// Blocks hold the same nodes in any order.
proof fn lemma_parts_contain(blocks: Seq<Seq<u32>>, order: Seq<usize>, node: u32)
    requires
        forall|at: int| 0 <= at < order.len() ==> #[trigger] order[at] < blocks.len(),
        forall|block: int| 0 <= block < blocks.len() ==> #[trigger] is_placed(order, block),
    ensures
        packing::nodes_of(ordered_blocks(blocks, order)).contains(node) <==> packing::nodes_of(
            blocks,
        ).contains(node),
{
    let parts = ordered_blocks(blocks, order);
    lemma_nodes_contains(blocks, node);
    lemma_nodes_contains(parts, node);
    if packing::nodes_of(blocks).contains(node) {
        let block = choose|block: int|
            0 <= block < blocks.len() && (#[trigger] blocks[block]).contains(node);
        assert(is_placed(order, block));
        let at = choose|at: int| 0 <= at < order.len() && #[trigger] order[at] == block;
        assert(parts[at].contains(node));
    }
    if packing::nodes_of(parts).contains(node) {
        let part = choose|part: int|
            0 <= part < parts.len() && (#[trigger] parts[part]).contains(node);
        assert(blocks[order[part] as int].contains(node));
    }
}

/// The last position of a node that occurs is a position of it.
proof fn lemma_last_position(nodes: Seq<u32>, node: u32)
    requires
        nodes.contains(node),
    ensures
        last_position(nodes, node) < nodes.len(),
        nodes[last_position(nodes, node) as int] == node,
    decreases nodes.len(),
{
    if nodes.last() != node {
        let front = nodes.drop_last();
        let at = choose|at: int| 0 <= at < nodes.len() && nodes[at] == node;
        assert(front[at] == node);
        lemma_last_position(front, node);
    }
}

/// The mapping of a packing in its greedy order is a bijection of the nodes and
/// the slots, and sends each node to its position in that order.
pub proof fn lemma_mapping_of_packing(
    adjacency: Seq<Seq<u32>>,
    capacity: nat,
    blocks: Seq<Seq<u32>>,
    medoid: u32,
    order: Seq<usize>,
)
    requires
        packing::is_packing(adjacency, capacity, blocks),
        ordering::is_order(adjacency, blocks, medoid, order),
        adjacency.len() <= u32::MAX,
    ensures
        ({
            let nodes = packing::nodes_of(ordered_blocks(blocks, order));
            let mapping = slots(nodes, adjacency.len());
            &&& nodes.len() == adjacency.len()
            &&& sidecar::is_bijection(mapping)
            &&& forall|node: int|
                0 <= node < adjacency.len() ==> nodes[#[trigger] mapping[node] as int] == node
            &&& mapping_outcome(blocks, order, adjacency.len() as u64) == Ok::<
                Seq<u32>,
                LayoutError,
            >(mapping)
        }),
{
    let count = adjacency.len();
    let parts = ordered_blocks(blocks, order);
    let nodes = packing::nodes_of(parts);
    let mapping = slots(nodes, count);
    packing::lemma_packing_is_partition(adjacency, capacity, blocks);
    lemma_order_is_permutation(adjacency, blocks, medoid, order);
    lemma_disjoint(blocks);
    lemma_parts_disjoint(blocks, order);
    lemma_disjoint(parts);
    assert forall|node: u32| node < count implies #[trigger] nodes.contains(node) by {
        assert(packing::nodes_of(blocks).contains(node));
        lemma_parts_contain(blocks, order, node);
    }
    assert forall|at: int| 0 <= at < nodes.len() implies #[trigger] nodes[at] < count by {
        assert(nodes.contains(nodes[at]));
        lemma_parts_contain(blocks, order, nodes[at]);
        assert(packing::nodes_of(blocks).contains(nodes[at]));
    }
    packing::lemma_cover_len(nodes, count);
    assert forall|node: int| 0 <= node < count implies nodes[#[trigger] mapping[node] as int] == node
        && mapping[node] < count by {
        assert(nodes.contains(node as u32));
        lemma_last_position(nodes, node as u32);
    }
    assert forall|i: int, j: int| 0 <= i < mapping.len() && 0 <= j < mapping.len() && i
        != j implies mapping[i] != mapping[j] by {
        assert(nodes[mapping[i] as int] == i && nodes[mapping[j] as int] == j);
    }
    sidecar::lemma_accepted_mapping_is_bijection(mapping, count as u64);
}

/// Blocks that hold every node once are numbered one to one: the mapping sends each node to
/// where it stands when the blocks are put one behind the other in their order.
pub proof fn lemma_mapping_numbers_nodes(blocks: Seq<Seq<u32>>, order: Seq<usize>, count: u64)
    requires
        count <= u32::MAX,
        ({
            let placed = Seq::new(order.len(), |at: int| blocks[order[at] as int]).flatten();
            &&& placed.no_duplicates()
            &&& placed.len() == count
            &&& forall|node: u32| node < count ==> #[trigger] placed.contains(node)
        }),
    ensures
        ({
            let placed = Seq::new(order.len(), |at: int| blocks[order[at] as int]).flatten();
            let outcome = mapping_outcome(blocks, order, count);
            &&& outcome is Ok
            &&& outcome->Ok_0.len() == count
            &&& forall|node: int|
                0 <= node < count ==> #[trigger] outcome->Ok_0[node] < count
                    && placed[outcome->Ok_0[node] as int] == node
        }),
{
    let parts = Seq::new(order.len(), |at: int| blocks[order[at] as int]);
    let placed = parts.flatten();
    assert(ordered_blocks(blocks, order) =~= parts);
    packing::lemma_nodes_of_is_flatten(parts);
    let mapping = slots(placed, count as nat);
    assert forall|node: int| 0 <= node < count implies #[trigger] mapping[node] < count
        && placed[mapping[node] as int] == node by {
        assert(placed.contains(node as u32));
        lemma_last_position(placed, node as u32);
    }
    assert(mapping.no_duplicates()) by {
        assert forall|i: int, j: int|
            0 <= i < mapping.len() && 0 <= j < mapping.len() && i != j implies mapping[i]
            != mapping[j] by {
            assert(placed[mapping[i] as int] == i);
            assert(placed[mapping[j] as int] == j);
        }
    }
    sidecar::lemma_mapping_is_accepted(mapping, count);
}

} // verus!
