//! Greedy order of blocks.
//!
//! The order starts with the block of the medoid. Each block is followed by the
//! unplaced block that the most of its edges lead to; of several such blocks, and
//! where no edge leads to an unplaced block, the one with the lowest ID is taken.
use crate::layout::error::LayoutError;
use crate::layout::index::MappedIndex;
use crate::layout::packing;
use vstd::prelude::*;

verus! {

/// The block that a node is in: the last one that holds it, or block 0.
pub open spec fn home(blocks: Seq<Seq<u32>>, node: u32) -> nat
    decreases blocks.len(),
{
    if blocks.len() == 0 {
        0
    } else if blocks.last().contains(node) {
        (blocks.len() - 1) as nat
    } else {
        home(blocks.drop_last(), node)
    }
}

/// How many nodes of `list` are in block `target`.
pub open spec fn list_edges(blocks: Seq<Seq<u32>>, list: Seq<u32>, target: int) -> nat
    decreases list.len(),
{
    if list.len() == 0 {
        0
    } else {
        list_edges(blocks, list.drop_last(), target) + if home(blocks, list.last()) == target {
            1nat
        } else {
            0nat
        }
    }
}

/// How many edges lead from `nodes` to block `target`.
pub open spec fn block_edges(
    adjacency: Seq<Seq<u32>>,
    blocks: Seq<Seq<u32>>,
    nodes: Seq<u32>,
    target: int,
) -> nat
    decreases nodes.len(),
{
    if nodes.len() == 0 {
        0
    } else {
        block_edges(adjacency, blocks, nodes.drop_last(), target) + list_edges(
            blocks,
            adjacency[nodes.last() as int],
            target,
        )
    }
}

/// `next` follows the blocks `placed`: of the blocks that are left it has the
/// highest edge count from the last one placed, and the lowest ID among those.
pub open spec fn follows(
    adjacency: Seq<Seq<u32>>,
    blocks: Seq<Seq<u32>>,
    placed: Seq<usize>,
    next: usize,
) -> bool {
    let from = blocks[placed.last() as int];
    &&& next < blocks.len()
    &&& !placed.contains(next)
    &&& forall|other: usize|
        other < blocks.len() && !(#[trigger] placed.contains(other)) ==> {
            let count = packing::capped(block_edges(adjacency, blocks, from, next as int) as int);
            let other_count = packing::capped(
                block_edges(adjacency, blocks, from, other as int) as int,
            );
            other_count < count || (other_count == count && next <= other)
        }
}

/// `order` is the greedy order of `blocks` that starts with the block of `medoid`.
pub open spec fn is_order(
    adjacency: Seq<Seq<u32>>,
    blocks: Seq<Seq<u32>>,
    medoid: u32,
    order: Seq<usize>,
) -> bool {
    &&& order.len() == blocks.len()
    &&& order.len() > 0 ==> order[0] == home(blocks, medoid)
    &&& forall|at: int|
        0 < at < order.len() ==> follows(adjacency, blocks, order.take(at), #[trigger] order[at])
}

/// Every node of the blocks is below `count`.
pub open spec fn nodes_below(blocks: Seq<Seq<u32>>, count: int) -> bool {
    forall|at: int, within: int|
        #![trigger blocks[at][within]]
        0 <= at < blocks.len() && 0 <= within < blocks[at].len() ==> blocks[at][within] < count
}

/// A block that a node is in is a block.
pub proof fn lemma_home_in_range(blocks: Seq<Seq<u32>>, node: u32)
    ensures
        blocks.len() > 0 ==> home(blocks, node) < blocks.len(),
        blocks.len() == 0 ==> home(blocks, node) == 0,
    decreases blocks.len(),
{
    if blocks.len() > 0 && !blocks.last().contains(node) {
        lemma_home_in_range(blocks.drop_last(), node);
    }
}

/// The block of each of `count` nodes.
fn find_homes(blocks: &[Vec<u32>], count: usize) -> (homes: Vec<usize>)
    requires
        nodes_below(packing::block_views(blocks@), count as int),
        count <= u32::MAX,
    ensures
        homes@.len() == count,
        forall|node: u32|
            node < count ==> #[trigger] homes@[node as int] == home(
                packing::block_views(blocks@),
                node,
            ),
{
    let ghost views = packing::block_views(blocks@);
    let mut homes: Vec<usize> = vec![0usize; count];
    let mut at: usize = 0;
    while at < blocks.len()
        invariant
            at <= blocks@.len(),
            views == packing::block_views(blocks@),
            nodes_below(views, count as int),
            count <= u32::MAX,
            homes@.len() == count,
            forall|node: u32|
                node < count ==> #[trigger] homes@[node as int] == home(views.take(at as int), node),
        decreases blocks@.len() - at,
    {
        let block: &Vec<u32> = &blocks[at];
        let ghost before = homes@;
        let mut within: usize = 0;
        while within < block.len()
            invariant
                within <= block@.len(),
                at < blocks@.len(),
                block@ == views[at as int],
                views.len() == blocks@.len(),
                nodes_below(views, count as int),
                count <= u32::MAX,
                before.len() == count,
                homes@.len() == count,
                forall|node: u32|
                    node < count ==> #[trigger] homes@[node as int] == if block@.take(
                        within as int,
                    ).contains(node) {
                        at
                    } else {
                        before[node as int]
                    },
            decreases block@.len() - within,
        {
            let placed: u32 = block[within];
            let ghost current = homes@;
            assert(views[at as int][within as int] < count);
            homes[placed as usize] = at;
            proof {
                let taken = block@.take(within as int);
                let grown = block@.take(within + 1);
                assert(grown =~= taken.push(placed));
                assert forall|node: u32| node < count implies #[trigger] homes@[node as int]
                    == if grown.contains(node) {
                    at
                } else {
                    before[node as int]
                } by {
                    if node == placed {
                        assert(grown[within as int] == node);
                    } else {
                        assert(current[node as int] == homes@[node as int]);
                        if taken.contains(node) {
                            let place = choose|place: int|
                                0 <= place < taken.len() && taken[place] == node;
                            assert(grown[place] == node);
                        }
                        if grown.contains(node) {
                            let place = choose|place: int|
                                0 <= place < grown.len() && grown[place] == node;
                            assert(taken[place] == node);
                        }
                    }
                }
            }
            within += 1;
        }
        proof {
            assert(block@.take(within as int) =~= block@);
            let grown = views.take(at + 1);
            assert(grown.drop_last() =~= views.take(at as int));
            assert forall|node: u32| node < count implies #[trigger] homes@[node as int] == home(
                grown,
                node,
            ) by {
                assert(before[node as int] == home(views.take(at as int), node));
            }
        }
        at += 1;
    }
    assert(views.take(at as int) =~= views);
    homes
}

/// Edge counts of blocks.
struct Weights {
    counts: Vec<u32>,
    touched: Vec<usize>,
}

impl Weights {
    /// Every touched block is unplaced and has a count, and every block with a
    /// count was touched.
    spec fn wf(self, placed: Seq<bool>) -> bool {
        &&& placed.len() <= usize::MAX
        &&& self.counts@.len() == placed.len()
        &&& forall|at: int|
            0 <= at < self.touched@.len() ==> {
                let block = #[trigger] self.touched@[at];
                block < placed.len() && !placed[block as int] && self.counts@[block as int] > 0
            }
        &&& forall|block: int|
            0 <= block < placed.len() && #[trigger] self.counts@[block] != 0
                ==> self.touched@.contains(block as usize)
    }

    /// Counts one edge that leads to an unplaced block.
    fn count_edge(&mut self, target: usize, placed: &Vec<bool>)
        requires
            old(self).wf(placed@),
            target < placed@.len(),
            !placed@[target as int],
        ensures
            final(self).wf(placed@),
            final(self).counts@ == old(self).counts@.update(
                target as int,
                packing::capped(old(self).counts@[target as int] + 1) as u32,
            ),
    {
        let ghost counts = self.counts@;
        let ghost touched = self.touched@;
        if self.counts[target] == 0 {
            self.touched.push(target);
        }
        let count: u32 = self.counts[target].saturating_add(1);
        self.counts[target] = count;
        proof {
            assert forall|at: int| 0 <= at < self.touched@.len() implies ({
                let block = #[trigger] self.touched@[at];
                block < placed@.len() && !placed@[block as int] && self.counts@[block as int] > 0
            }) by {
                if at < touched.len() {
                    assert(touched[at] == self.touched@[at]);
                }
            }
            assert forall|block: int|
                0 <= block < placed@.len() && #[trigger] self.counts@[block]
                    != 0 implies self.touched@.contains(block as usize) by {
                if block != target || counts[block] != 0 {
                    assert(counts[block] != 0);
                    let at = choose|at: int|
                        0 <= at < touched.len() && touched[at] == block as usize;
                    assert(self.touched@[at] == block as usize);
                } else {
                    assert(self.touched@[touched.len() as int] == block as usize);
                }
            }
        }
    }

    /// Counts the edges that lead from one node to unplaced blocks.
    fn count_node(
        &mut self,
        list: &Vec<u32>,
        homes: &Vec<usize>,
        placed: &Vec<bool>,
        Ghost(blocks): Ghost<Seq<Seq<u32>>>,
    )
        requires
            old(self).wf(placed@),
            placed@.len() == blocks.len(),
            blocks.len() > 0,
            forall|at: int| 0 <= at < list@.len() ==> #[trigger] list@[at] < homes@.len(),
            forall|node: u32|
                node < homes@.len() ==> #[trigger] homes@[node as int] == home(blocks, node),
        ensures
            final(self).wf(placed@),
            forall|block: int|
                0 <= block < placed@.len() && !placed@[block] ==> #[trigger] final(self).counts@[block]
                    == packing::capped(
                    old(self).counts@[block] + list_edges(blocks, list@, block),
                ),
    {
        let ghost before = self.counts@;
        let mut at: usize = 0;
        while at < list.len()
            invariant
                at <= list@.len(),
                self.wf(placed@),
                placed@.len() == blocks.len(),
                blocks.len() > 0,
                before.len() == placed@.len(),
                forall|at: int| 0 <= at < list@.len() ==> #[trigger] list@[at] < homes@.len(),
                forall|node: u32|
                    node < homes@.len() ==> #[trigger] homes@[node as int] == home(blocks, node),
                forall|block: int|
                    0 <= block < placed@.len() && !placed@[block] ==> #[trigger] self.counts@[block]
                        == packing::capped(
                        before[block] + list_edges(blocks, list@.take(at as int), block),
                    ),
            decreases list@.len() - at,
        {
            let neighbor: u32 = list[at];
            let target: usize = homes[neighbor as usize];
            let ghost counts = self.counts@;
            proof {
                lemma_home_in_range(blocks, neighbor);
                assert(list@.take(at + 1).drop_last() =~= list@.take(at as int));
            }
            if !placed[target] {
                self.count_edge(target, placed);
            }
            proof {
                assert forall|block: int|
                    0 <= block < placed@.len()
                        && !placed@[block] implies #[trigger] self.counts@[block]
                    == packing::capped(
                    before[block] + list_edges(blocks, list@.take(at + 1), block),
                ) by {
                    assert(counts[block] == packing::capped(
                        before[block] + list_edges(blocks, list@.take(at as int), block),
                    ));
                }
            }
            at += 1;
        }
        assert(list@.take(at as int) =~= list@);
    }

    /// The touched block with the highest count and the lowest ID among those.
    fn heaviest(&self, Ghost(placed): Ghost<Seq<bool>>) -> (best: Option<usize>)
        requires
            self.wf(placed),
        ensures
            match best {
                Some(block) => {
                    &&& block < placed.len()
                    &&& !placed[block as int]
                    &&& forall|other: int|
                        0 <= other < placed.len() ==> {
                            let other_count = #[trigger] self.counts@[other];
                            other_count < self.counts@[block as int] || (other_count
                                == self.counts@[block as int] && block <= other)
                        }
                },
                None => forall|other: int|
                    0 <= other < placed.len() ==> #[trigger] self.counts@[other] == 0,
            },
    {
        if self.touched.len() == 0 {
            return None;
        }
        let mut best: usize = self.touched[0];
        let mut at: usize = 1;
        while at < self.touched.len()
            invariant
                1 <= at <= self.touched@.len(),
                self.wf(placed),
                self.touched@.contains(best),
                forall|i: int|
                    0 <= i < at ==> {
                        let other = #[trigger] self.touched@[i];
                        self.counts@[other as int] < self.counts@[best as int] || (
                        self.counts@[other as int] == self.counts@[best as int] && best <= other)
                    },
            decreases self.touched@.len() - at,
        {
            let other: usize = self.touched[at];
            proof {
                let place = choose|place: int|
                    0 <= place < self.touched@.len() && self.touched@[place] == best;
                assert(self.touched@[place] == best);
            }
            if self.counts[best] < self.counts[other] || (self.counts[best] == self.counts[other]
                && other < best) {
                best = other;
            }
            at += 1;
        }
        proof {
            let place = choose|place: int|
                0 <= place < self.touched@.len() && self.touched@[place] == best;
            assert(self.touched@[place] == best);
            assert forall|other: int| 0 <= other < placed.len() implies ({
                let other_count = #[trigger] self.counts@[other];
                other_count < self.counts@[best as int] || (other_count
                    == self.counts@[best as int] && best <= other)
            }) by {
                if self.counts@[other] != 0 {
                    let i = choose|i: int|
                        0 <= i < self.touched@.len() && self.touched@[i] == other as usize;
                    assert(self.touched@[i] == other as usize);
                }
            }
        }
        Some(best)
    }

    /// Forgets every count.
    fn reset(&mut self, Ghost(placed): Ghost<Seq<bool>>)
        requires
            old(self).wf(placed),
        ensures
            final(self).counts@.len() == old(self).counts@.len(),
            final(self).touched@.len() == 0,
            forall|block: int|
                0 <= block < final(self).counts@.len() ==> #[trigger] final(self).counts@[block]
                    == 0,
    {
        let ghost touched = self.touched@;
        assert(touched.skip(0) =~= touched);
        let mut at: usize = 0;
        while at < self.touched.len()
            invariant
                at <= touched.len(),
                self.touched@ == touched,
                self.counts@.len() == old(self).counts@.len(),
                self.counts@.len() <= usize::MAX,
                forall|i: int|
                    0 <= i < touched.len() ==> #[trigger] touched[i] < self.counts@.len(),
                forall|block: int|
                    0 <= block < self.counts@.len() && #[trigger] self.counts@[block] != 0
                        ==> touched.skip(at as int).contains(block as usize),
            decreases touched.len() - at,
        {
            let block: usize = self.touched[at];
            let ghost counts = self.counts@;
            self.counts[block] = 0;
            proof {
                assert forall|other: int|
                    0 <= other < self.counts@.len() && #[trigger] self.counts@[other]
                        != 0 implies touched.skip(at + 1).contains(other as usize) by {
                    assert(counts[other] != 0);
                    let rest = touched.skip(at as int);
                    let place = choose|place: int|
                        0 <= place < rest.len() && rest[place] == other as usize;
                    assert(place != 0);
                    assert(touched.skip(at + 1)[place - 1] == other as usize);
                }
            }
            at += 1;
        }
        proof {
            assert forall|block: int| 0 <= block < self.counts@.len() implies #[trigger] self.counts@[block]
                == 0 by {
                assert(touched.skip(at as int).len() == 0);
            }
        }
        self.touched.clear();
    }
}

/// `placed` marks the blocks of `order`.
spec fn marks(placed: Seq<bool>, order: Seq<usize>) -> bool {
    forall|block: usize|
        block < placed.len() ==> (#[trigger] placed[block as int] <==> order.contains(block))
}

/// Distinct blocks that are marked leave an unmarked one as long as they are
/// fewer than all.
proof fn lemma_block_left(placed: Seq<bool>, order: Seq<usize>)
    requires
        marks(placed, order),
        order.len() < placed.len(),
        placed.len() <= usize::MAX,
    ensures
        exists|block: int| 0 <= block < placed.len() && !#[trigger] placed[block],
{
    if forall|block: int| 0 <= block < placed.len() ==> #[trigger] placed[block] {
        let ints = order.map_values(|block: usize| block as int);
        let range = vstd::set_lib::set_int_range(0, placed.len() as int);
        vstd::set_lib::lemma_int_range(0, placed.len() as int);
        assert(range.subset_of(ints.to_set())) by {
            assert forall|value: int| range.contains(value) implies ints.to_set().contains(value) by {
                assert(placed[value as usize as int]);
                let at = choose|at: int| 0 <= at < order.len() && order[at] == value as usize;
                assert(ints[at] == value);
            }
        }
        ints.lemma_cardinality_of_set();
        vstd::set_lib::lemma_len_subset(range, ints.to_set());
    }
}

/// Orders the blocks of an index greedily, starting with the block of the medoid.
pub fn order_blocks(index: &MappedIndex<'_>, blocks: &[Vec<u32>]) -> (result: Result<
    Vec<usize>,
    LayoutError,
>)
    requires
        index.wf(),
        nodes_below(packing::block_views(blocks@), index.fields.num_points as int),
    ensures
        result is Ok,
        is_order(
            index.adjacency(),
            packing::block_views(blocks@),
            index.fields.medoid as u32,
            result->Ok_0@,
        ),
{
    proof {
        index.lemma_wf();
        index.lemma_point_count();
    }
    let ghost adjacency = index.adjacency();
    let ghost views = packing::block_views(blocks@);
    let count: usize = index.fields.num_points as usize;
    let homes = find_homes(blocks, count);
    let medoid: u32 = index.fields.medoid as u32;
    let total: usize = blocks.len();
    let mut order: Vec<usize> = Vec::new();
    if total == 0 {
        return Ok(order);
    }
    let mut placed: Vec<bool> = vec![false; total];
    let mut current: usize = homes[medoid as usize];
    let mut lowest: usize = 0;
    let mut weights = Weights { counts: vec![0u32; total], touched: Vec::new() };
    proof {
        lemma_home_in_range(views, medoid);
    }
    while order.len() < total
        invariant
            index.wf(),
            adjacency == index.adjacency(),
            adjacency.len() == count,
            count == index.fields.num_points,
            medoid == index.fields.medoid,
            count <= u32::MAX,
            homes@.len() == count,
            views == packing::block_views(blocks@),
            nodes_below(views, count as int),
            total == blocks@.len(),
            views.len() == total,
            total > 0,
            forall|node: u32|
                node < count ==> #[trigger] homes@[node as int] == home(views, node),
            placed@.len() == total,
            order@.len() <= total,
            lowest <= total,
            marks(placed@, order@),
            forall|block: int| 0 <= block < lowest ==> #[trigger] placed@[block],
            weights.wf(placed@),
            weights.touched@.len() == 0,
            forall|block: int| 0 <= block < total ==> #[trigger] weights.counts@[block] == 0,
            order@.len() == 0 ==> current == home(views, medoid),
            order@.len() > 0 ==> order@[0] == home(views, medoid),
            order@.len() < total ==> current < total && !placed@[current as int],
            0 < order@.len() < total ==> follows(adjacency, views, order@, current),
            forall|at: int|
                0 < at < order@.len() ==> follows(
                    adjacency,
                    views,
                    order@.take(at),
                    #[trigger] order@[at],
                ),
        decreases total - order@.len(),
    {
        let ghost old_order = order@;
        let ghost old_placed = placed@;
        placed[current] = true;
        order.push(current);
        proof {
            assert forall|block: usize| block < placed@.len() implies (
            #[trigger] placed@[block as int] <==> order@.contains(block)) by {
                if block == current {
                    assert(order@[old_order.len() as int] == block);
                } else {
                    assert(placed@[block as int] == old_placed[block as int]);
                    if old_order.contains(block) {
                        let at = choose|at: int|
                            0 <= at < old_order.len() && old_order[at] == block;
                        assert(order@[at] == block);
                    }
                    if order@.contains(block) {
                        let at = choose|at: int| 0 <= at < order@.len() && order@[at] == block;
                        assert(old_order[at] == block);
                    }
                }
            }
            assert forall|at: int| 0 < at < order@.len() implies follows(
                adjacency,
                views,
                order@.take(at),
                #[trigger] order@[at],
            ) by {
                if at < old_order.len() {
                    assert(order@.take(at) =~= old_order.take(at));
                    assert(order@[at] == old_order[at]);
                } else {
                    assert(order@.take(at) =~= old_order);
                }
            }
        }
        while lowest < total && placed[lowest]
            invariant
                lowest <= total,
                placed@.len() == total,
                forall|block: int| 0 <= block < lowest ==> #[trigger] placed@[block],
            decreases total - lowest,
        {
            lowest += 1;
        }
        if order.len() < total {
            proof {
                lemma_block_left(placed@, order@);
            }
            let block: &Vec<u32> = &blocks[current];
            let mut within: usize = 0;
            while within < block.len()
                invariant
                    index.wf(),
                    adjacency == index.adjacency(),
                    adjacency.len() == count,
                    count == index.fields.num_points,
                    homes@.len() == count,
                    nodes_below(views, count as int),
                    current < views.len(),
                    views.len() > 0,
                    placed@.len() == views.len(),
                    forall|node: u32|
                        node < count ==> #[trigger] homes@[node as int] == home(views, node),
                    block@ == views[current as int],
                    within <= block@.len(),
                    weights.wf(placed@),
                    forall|target: int|
                        0 <= target < placed@.len() && !placed@[target]
                            ==> #[trigger] weights.counts@[target] == packing::capped(
                            block_edges(adjacency, views, block@.take(within as int), target) as int,
                        ),
                decreases block@.len() - within,
            {
                let node: u32 = block[within];
                assert(views[current as int][within as int] < count);
                let list = index.neighbors(node);
                proof {
                    index.lemma_wf();
                    assert forall|at: int| 0 <= at < list@.len() implies #[trigger] list@[at]
                        < homes@.len() by {
                        assert(index.adjacency()[node as int][at] < count);
                    }
                }
                let ghost before = weights.counts@;
                weights.count_node(&list, &homes, &placed, Ghost(views));
                proof {
                    let grown = block@.take(within + 1);
                    assert(grown.drop_last() =~= block@.take(within as int));
                    assert forall|target: int|
                        0 <= target < placed@.len()
                            && !placed@[target] implies #[trigger] weights.counts@[target]
                        == packing::capped(
                        block_edges(adjacency, views, grown, target) as int,
                    ) by {
                        assert(before[target] == packing::capped(
                            block_edges(adjacency, views, block@.take(within as int), target) as int,
                        ));
                    }
                }
                within += 1;
            }
            let next: usize = match weights.heaviest(Ghost(placed@)) {
                Some(block) => block,
                None => lowest,
            };
            proof {
                assert(block@.take(within as int) =~= block@);
                assert(order@.last() == current);
                assert(lowest < total) by {
                    let left = choose|block: int|
                        0 <= block < placed@.len() && !#[trigger] placed@[block];
                    assert(left >= lowest);
                }
                assert(follows(adjacency, views, order@, next)) by {
                    assert(!placed@[next as int]);
                    assert forall|other: usize|
                        other < views.len() && !(#[trigger] order@.contains(other)) implies ({
                        let count = packing::capped(
                            block_edges(adjacency, views, block@, next as int) as int,
                        );
                        let other_count = packing::capped(
                            block_edges(adjacency, views, block@, other as int) as int,
                        );
                        other_count < count || (other_count == count && next <= other)
                    }) by {
                        assert(!placed@[other as int]);
                        assert(weights.counts@[other as int] == packing::capped(
                            block_edges(adjacency, views, block@, other as int) as int,
                        ));
                        assert(weights.counts@[next as int] == packing::capped(
                            block_edges(adjacency, views, block@, next as int) as int,
                        ));
                    }
                }
            }
            weights.reset(Ghost(placed@));
            current = next;
        }
    }
    Ok(order)
}

/// Two greedy orders agree on their first `count` blocks.
proof fn lemma_orders_agree(
    adjacency: Seq<Seq<u32>>,
    blocks: Seq<Seq<u32>>,
    medoid: u32,
    left: Seq<usize>,
    right: Seq<usize>,
    count: int,
)
    requires
        is_order(adjacency, blocks, medoid, left),
        is_order(adjacency, blocks, medoid, right),
        0 <= count <= blocks.len(),
    ensures
        left.take(count) == right.take(count),
    decreases count,
{
    if count > 0 {
        let at = count - 1;
        lemma_orders_agree(adjacency, blocks, medoid, left, right, at);
        if at > 0 {
            let placed = left.take(at);
            assert(follows(adjacency, blocks, placed, left[at]));
            assert(follows(adjacency, blocks, right.take(at), right[at]));
            assert(!placed.contains(left[at]) && !placed.contains(right[at]));
        }
        assert(left.take(count) =~= left.take(at).push(left[at]));
        assert(right.take(count) =~= right.take(at).push(right[at]));
    } else {
        assert(left.take(0) =~= right.take(0));
    }
}

/// Ordering is deterministic: blocks and a medoid have one greedy order.
pub proof fn lemma_order_is_unique(
    adjacency: Seq<Seq<u32>>,
    blocks: Seq<Seq<u32>>,
    medoid: u32,
    left: Seq<usize>,
    right: Seq<usize>,
)
    requires
        is_order(adjacency, blocks, medoid, left),
        is_order(adjacency, blocks, medoid, right),
    ensures
        left == right,
{
    let count = blocks.len() as int;
    lemma_orders_agree(adjacency, blocks, medoid, left, right, count);
    assert(left.take(count) =~= left);
    assert(right.take(count) =~= right);
}

/// Where no edge leads from the last block placed to one that is left, the order goes on
/// with the lowest block left.
pub proof fn lemma_restart_takes_lowest(
    adjacency: Seq<Seq<u32>>,
    blocks: Seq<Seq<u32>>,
    medoid: u32,
    order: Seq<usize>,
    at: int,
    other: usize,
)
    requires
        is_order(adjacency, blocks, medoid, order),
        0 < at < order.len(),
        forall|left: usize|
            left < blocks.len() && !(#[trigger] order.take(at).contains(left)) ==> block_edges(
                adjacency,
                blocks,
                blocks[order[at - 1] as int],
                left as int,
            ) == 0,
        other < blocks.len(),
        !order.take(at).contains(other),
    ensures
        order[at] <= other,
{
    let placed = order.take(at);
    assert(follows(adjacency, blocks, placed, order[at]));
    assert(placed.last() == order[at - 1]);
}

/// The block that a node is in is a block that holds it, if there is one, and no later block
/// holds it.
pub proof fn lemma_home_holds_node(blocks: Seq<Seq<u32>>, node: u32, at: int)
    requires
        0 <= at < blocks.len(),
        blocks[at].contains(node),
    ensures
        at <= home(blocks, node) < blocks.len(),
        blocks[home(blocks, node) as int].contains(node),
    decreases blocks.len(),
{
    if !blocks.last().contains(node) {
        lemma_home_holds_node(blocks.drop_last(), node, at);
    }
}

/// The edges that lead from nodes to a block are all entries of the adjacency lists of those
/// nodes that name a node of the block, counted as often as they occur.
pub proof fn lemma_block_edges_counts_entries(
    adjacency: Seq<Seq<u32>>,
    blocks: Seq<Seq<u32>>,
    nodes: Seq<u32>,
    target: int,
)
    ensures
        block_edges(adjacency, blocks, nodes, target) == Seq::new(
            nodes.len(),
            |at: int| adjacency[nodes[at] as int],
        ).flatten().filter(|entry: u32| home(blocks, entry) == target).len(),
    decreases nodes.len(),
{
    let lists = Seq::new(nodes.len(), |at: int| adjacency[nodes[at] as int]);
    let leads = |entry: u32| home(blocks, entry) == target;
    lists.lemma_flatten_and_flatten_alt_are_equivalent();
    if nodes.len() > 0 {
        let front = nodes.drop_last();
        let fewer = Seq::new(front.len(), |at: int| adjacency[front[at] as int]);
        lemma_block_edges_counts_entries(adjacency, blocks, front, target);
        fewer.lemma_flatten_and_flatten_alt_are_equivalent();
        assert(lists.drop_last() =~= fewer);
        assert(lists.last() == adjacency[nodes.last() as int]);
        Seq::filter_distributes_over_add(fewer.flatten_alt(), lists.last(), leads);
        lemma_list_edges_is_filter(blocks, lists.last(), target);
    } else {
        reveal(Seq::filter);
    }
}

/// A list leads to a block as often as it has entries that name a node of the block.
proof fn lemma_list_edges_is_filter(blocks: Seq<Seq<u32>>, list: Seq<u32>, target: int)
    ensures
        list_edges(blocks, list, target) == list.filter(
            |entry: u32| home(blocks, entry) == target,
        ).len(),
    decreases list.len(),
{
    reveal(Seq::filter);
    if list.len() > 0 {
        lemma_list_edges_is_filter(blocks, list.drop_last(), target);
    }
}

/// Which block comes next: the first is one that holds the medoid, and behind it every block
/// is one not placed before, of those the one whose nodes the most entries in the adjacency
/// lists of the block just before it name, and the lowest of several that as many name.
pub proof fn lemma_order_takes_most_named(
    adjacency: Seq<Seq<u32>>,
    blocks: Seq<Seq<u32>>,
    medoid: u32,
    order: Seq<usize>,
    at: int,
    other: usize,
)
    requires
        is_order(adjacency, blocks, medoid, order),
        blocks.flatten().contains(medoid),
        0 < at < order.len(),
        other < blocks.len(),
        !order.take(at).contains(other),
    ensures
        order.len() == blocks.len(),
        order[0] < blocks.len(),
        blocks[order[0] as int].contains(medoid),
        ({
            let next = order[at];
            let from = blocks[order[at - 1] as int];
            let entries = Seq::new(
                from.len(),
                |place: int| adjacency[from[place] as int],
            ).flatten();
            let named = entries.filter(|entry: u32| home(blocks, entry) == next as int).len();
            let other_named = entries.filter(
                |entry: u32| home(blocks, entry) == other as int,
            ).len();
            &&& next < blocks.len()
            &&& !order.take(at).contains(next)
            &&& other_named > named ==> named >= u32::MAX
            &&& other_named == named ==> next <= other
        }),
{
    let placed = order.take(at);
    let next = order[at];
    let from = blocks[order[at - 1] as int];
    assert(follows(adjacency, blocks, placed, next));
    assert(placed.last() == order[at - 1]);
    lemma_block_edges_counts_entries(adjacency, blocks, from, next as int);
    lemma_block_edges_counts_entries(adjacency, blocks, from, other as int);
    packing::lemma_nodes_of_is_flatten(blocks);
    lemma_some_block_holds(blocks, medoid);
    let holder = choose|holder: int|
        0 <= holder < blocks.len() && (#[trigger] blocks[holder]).contains(medoid);
    lemma_home_holds_node(blocks, medoid, holder);
}

/// A node among the nodes of all blocks is in one of them.
proof fn lemma_some_block_holds(blocks: Seq<Seq<u32>>, node: u32)
    requires
        packing::nodes_of(blocks).contains(node),
    ensures
        exists|holder: int|
            0 <= holder < blocks.len() && (#[trigger] blocks[holder]).contains(node),
    decreases blocks.len(),
{
    if blocks.len() > 0 {
        let front = blocks.drop_last();
        if blocks.last().contains(node) {
            assert(blocks[blocks.len() - 1].contains(node));
        } else {
            let all = packing::nodes_of(blocks);
            let at = choose|at: int| 0 <= at < all.len() && all[at] == node;
            assert(packing::nodes_of(front).contains(node)) by {
                if at >= packing::nodes_of(front).len() {
                    assert(blocks.last()[at - packing::nodes_of(front).len()] == node);
                } else {
                    assert(packing::nodes_of(front)[at] == node);
                }
            }
            lemma_some_block_holds(front, node);
            let holder = choose|holder: int|
                0 <= holder < front.len() && (#[trigger] front[holder]).contains(node);
            assert(blocks[holder].contains(node));
        }
    }
}

} // verus!
