//! Greedy packing of nodes into blocks.
//!
//! A block is filled one node at a time with the unassigned node that the most
//! edges of the block lead to; of several such nodes the one with the lowest ID
//! is taken. The first node of a block, to which no edge of the block leads, is
//! therefore the unassigned node with the lowest ID.
use crate::heap::MaxHeap;
use crate::layout::error::LayoutError;
use crate::layout::index::MappedIndex;
use vstd::multiset::Multiset;
use vstd::prelude::*;

verus! {

/// How often `node` occurs in `list`.
pub open spec fn occurrences(list: Seq<u32>, node: u32) -> nat
    decreases list.len(),
{
    if list.len() == 0 {
        0
    } else {
        occurrences(list.drop_last(), node) + if list.last() == node {
            1nat
        } else {
            0nat
        }
    }
}

/// The number of edges that lead from the nodes of `block` to `node`.
pub open spec fn edges_into(adjacency: Seq<Seq<u32>>, block: Seq<u32>, node: u32) -> nat
    decreases block.len(),
{
    if block.len() == 0 {
        0
    } else {
        edges_into(adjacency, block.drop_last(), node) + occurrences(
            adjacency[block.last() as int],
            node,
        )
    }
}

/// An edge count as it is kept: counts stop at `u32::MAX`.
pub open spec fn capped(count: int) -> int {
    if count > u32::MAX {
        u32::MAX as int
    } else {
        count
    }
}

/// `node` is none of the nodes placed before, in earlier blocks or this one.
pub open spec fn is_free(
    adjacency: Seq<Seq<u32>>,
    placed: Seq<u32>,
    block: Seq<u32>,
    node: u32,
) -> bool {
    node < adjacency.len() && !placed.contains(node) && !block.contains(node)
}

/// `node` follows the nodes of `block`: of the free nodes it has the highest
/// edge count, and the lowest ID among those.
pub open spec fn is_next(
    adjacency: Seq<Seq<u32>>,
    placed: Seq<u32>,
    block: Seq<u32>,
    node: u32,
) -> bool {
    &&& is_free(adjacency, placed, block, node)
    &&& forall|other: u32| #[trigger]
        is_free(adjacency, placed, block, other) ==> {
            let count = capped(edges_into(adjacency, block, node) as int);
            let other_count = capped(edges_into(adjacency, block, other) as int);
            other_count < count || (other_count == count && node <= other)
        }
}

/// Each node of `block` follows the nodes before it.
pub open spec fn is_greedy(
    adjacency: Seq<Seq<u32>>,
    placed: Seq<u32>,
    block: Seq<u32>,
) -> bool {
    forall|at: int|
        0 <= at < block.len() ==> is_next(adjacency, placed, block.take(at), #[trigger] block[at])
}

/// The nodes of all blocks, in order.
pub open spec fn nodes_of(blocks: Seq<Seq<u32>>) -> Seq<u32>
    decreases blocks.len(),
{
    if blocks.len() == 0 {
        Seq::empty()
    } else {
        nodes_of(blocks.drop_last()) + blocks.last()
    }
}

/// The contents of a vector of blocks.
pub open spec fn block_views(blocks: Seq<Vec<u32>>) -> Seq<Seq<u32>> {
    Seq::new(blocks.len(), |at: int| blocks[at]@)
}

/// `blocks` is the greedy packing of a graph: every node is in it, every block
/// but the last is full, none is empty, and each node follows those before it.
pub open spec fn is_packing(
    adjacency: Seq<Seq<u32>>,
    capacity: nat,
    blocks: Seq<Seq<u32>>,
) -> bool {
    &&& forall|node: u32|
        node < adjacency.len() ==> #[trigger] nodes_of(blocks).contains(node)
    &&& forall|at: int|
        0 <= at < blocks.len() ==> 1 <= (#[trigger] blocks[at]).len() <= capacity
    &&& forall|at: int|
        0 <= at < blocks.len() - 1 ==> (#[trigger] blocks[at]).len() == capacity
    &&& forall|at: int|
        0 <= at < blocks.len() ==> is_greedy(
            adjacency,
            nodes_of(blocks.take(at)),
            #[trigger] blocks[at],
        )
}

/// The key of a node in the frontier: its edge count first, then a low ID.
spec fn key(count: u32, node: u32) -> int {
    count * 0x1_0000_0000 + (0xffff_ffff - node)
}

/// Nodes that edges of the block lead to.
struct Frontier {
    heap: MaxHeap,
    counts: Vec<u32>,
    touched: Vec<u32>,
}

/// Every free node with an edge count has its key among `keys`.
spec fn keys_cover(keys: Multiset<u128>, assigned: Seq<bool>, counts: Seq<u32>) -> bool {
    forall|node: u32|
        node < assigned.len() && !assigned[node as int] && #[trigger] counts[node as int] > 0
            ==> keys.contains(key(counts[node as int], node) as u128)
}

impl Frontier {
    spec fn wf(self, assigned: Seq<bool>) -> bool {
        &&& self.heap.wf()
        &&& assigned.len() <= u32::MAX
        &&& self.counts@.len() == assigned.len()
        &&& keys_cover(self.heap@, assigned, self.counts@)
        &&& forall|entry: u128| #[trigger]
            self.heap@.contains(entry) ==> 0xffff_ffff - entry % 0x1_0000_0000 < assigned.len()
                && 1 <= entry / 0x1_0000_0000 <= u32::MAX
        &&& forall|at: int|
            0 <= at < self.touched@.len() ==> #[trigger] self.touched@[at] < assigned.len()
        &&& forall|node: int|
            0 <= node < assigned.len() && #[trigger] self.counts@[node] != 0
                ==> self.touched@.contains(node as u32)
    }

    /// Counts the edges that lead from a node to its free neighbors.
    fn absorb(&mut self, list: &Vec<u32>, assigned: &Vec<bool>)
        requires
            old(self).wf(assigned@),
            forall|at: int| 0 <= at < list@.len() ==> #[trigger] list@[at] < assigned@.len(),
        ensures
            final(self).wf(assigned@),
            forall|node: u32|
                node < assigned@.len() && !assigned@[node as int] ==> #[trigger] final(self).counts@[node as int] == capped(
                    old(self).counts@[node as int] + occurrences(list@, node),
                ),
    {
        let ghost before = self.counts@;
        let mut at: usize = 0;
        while at < list.len()
            invariant
                at <= list@.len(),
                before.len() == assigned@.len(),
                self.wf(assigned@),
                forall|at: int| 0 <= at < list@.len() ==> #[trigger] list@[at] < assigned@.len(),
                forall|node: u32|
                    node < assigned@.len() && !assigned@[node as int]
                        ==> #[trigger] self.counts@[node as int] == capped(
                        before[node as int] + occurrences(list@.take(at as int), node),
                    ),
            decreases list@.len() - at,
        {
            let neighbor: u32 = list[at];
            let ghost counts = self.counts@;
            assert(list@.take(at + 1).drop_last() =~= list@.take(at as int));
            if !assigned[neighbor as usize] {
                self.count_edge(neighbor, assigned);
            }
            proof {
                assert forall|node: u32|
                    node < assigned@.len()
                        && !assigned@[node as int] implies #[trigger] self.counts@[node as int]
                    == capped(before[node as int] + occurrences(list@.take(at + 1), node)) by {
                    assert(counts[node as int] == capped(
                        before[node as int] + occurrences(list@.take(at as int), node),
                    ));
                }
            }
            at += 1;
        }
        assert(list@.take(at as int) =~= list@);
    }

    /// Counts one edge that leads to a free node.
    fn count_edge(&mut self, neighbor: u32, assigned: &Vec<bool>)
        requires
            old(self).wf(assigned@),
            neighbor < assigned@.len(),
            !assigned@[neighbor as int],
        ensures
            final(self).wf(assigned@),
            final(self).counts@ == old(self).counts@.update(
                neighbor as int,
                capped(old(self).counts@[neighbor as int] + 1) as u32,
            ),
    {
        let ghost counts = self.counts@;
        let ghost keys = self.heap@;
        let ghost touched = self.touched@;
        if self.counts[neighbor as usize] == 0 {
            self.touched.push(neighbor);
        }
        let count: u32 = self.counts[neighbor as usize].saturating_add(1);
        self.counts[neighbor as usize] = count;
        let entry: u128 = count as u128 * 0x1_0000_0000 + (0xffff_ffff - neighbor as u128);
        self.heap.push(entry);
        proof {
            assert(entry == key(count, neighbor));
            assert(entry / 0x1_0000_0000 == count && entry % 0x1_0000_0000 == 0xffff_ffff
                - neighbor);
            assert forall|node: u32|
                node < assigned@.len() && !assigned@[node as int] && #[trigger] self.counts@[node as int]
                    > 0 implies self.heap@.contains(key(self.counts@[node as int], node) as u128) by {
                if node != neighbor {
                    assert(counts[node as int] > 0);
                }
            }
            assert forall|node: int|
                0 <= node < assigned@.len() && #[trigger] self.counts@[node]
                    != 0 implies self.touched@.contains(node as u32) by {
                if node != neighbor || counts[node] != 0 {
                    assert(counts[node] != 0);
                    let at = choose|at: int| 0 <= at < touched.len() && touched[at] == node as u32;
                    assert(self.touched@[at] == node as u32);
                } else {
                    assert(self.touched@[touched.len() as int] == node as u32);
                }
            }
            assert forall|other: u128| #[trigger] self.heap@.contains(other) implies 0xffff_ffff
                - other % 0x1_0000_0000 < assigned@.len() && 1 <= other / 0x1_0000_0000 <= u32::MAX by {
                if other != entry {
                    assert(keys.contains(other));
                }
            }
            assert forall|at: int| 0 <= at < self.touched@.len() implies #[trigger] self.touched@[at]
                < assigned@.len() by {
                if at < touched.len() {
                    assert(touched[at] < assigned@.len());
                }
            }
        }
    }

    /// Takes the free node that comes next, if an edge leads to one.
    fn take_next(&mut self, assigned: &Vec<bool>) -> (next: Option<u32>)
        requires
            old(self).wf(assigned@),
        ensures
            final(self).wf_after_take(assigned@, next),
            final(self).counts@ == old(self).counts@,
            final(self).touched@ == old(self).touched@,
            match next {
                Some(node) => {
                    &&& node < assigned@.len()
                    &&& !assigned@[node as int]
                    &&& final(self).counts@[node as int] > 0
                    &&& forall|other: u32|
                        other < assigned@.len() && !assigned@[other as int] ==> {
                            let count = final(self).counts@[node as int];
                            let other_count = #[trigger] final(self).counts@[other as int];
                            other_count < count || (other_count == count && node <= other)
                        }
                },
                None => forall|other: u32|
                    other < assigned@.len() && !assigned@[other as int] ==> #[trigger] final(self).counts@[other as int] == 0,
            },
    {
        let ghost counts = self.counts@;
        let ghost touched = self.touched@;
        loop
            invariant
                self.wf(assigned@),
                self.counts@ == counts,
                self.touched@ == touched,
                counts == old(self).counts@,
                touched == old(self).touched@,
            decreases self.heap@.len(),
        {
            let ghost keys = self.heap@;
            match self.heap.pop() {
                Some(entry) => {
                    let node: u32 = (0xffff_ffff - entry % 0x1_0000_0000) as u32;
                    let count: u32 = (entry / 0x1_0000_0000) as u32;
                    assert(keys.contains(entry));
                    assert(entry == key(count, node));
                    assert forall|other: u128| #[trigger] self.heap@.contains(other) implies keys.contains(
                        other,
                    ) by {}
                    if !assigned[node as usize] && self.counts[node as usize] == count {
                        proof {
                            assert forall|other: u32|
                                other < assigned@.len() && !assigned@[other as int] implies ({
                                let other_count = #[trigger] counts[other as int];
                                other_count < count || (other_count == count && node <= other)
                            }) by {
                                if counts[other as int] > 0 {
                                    assert(keys.contains(key(counts[other as int], other) as u128));
                                }
                            }
                            assert forall|other: u32|
                                other < assigned@.len() && !assigned@[other as int] && other != node
                                    && #[trigger] counts[other as int]
                                    > 0 implies self.heap@.contains(
                                key(counts[other as int], other) as u128,
                            ) by {
                                assert(keys.contains(key(counts[other as int], other) as u128));
                            }
                        }
                        return Some(node);
                    }
                    proof {
                        assert forall|other: u32|
                            other < assigned@.len() && !assigned@[other as int]
                                && #[trigger] counts[other as int] > 0 implies self.heap@.contains(
                            key(counts[other as int], other) as u128,
                        ) by {
                            assert(keys.contains(key(counts[other as int], other) as u128));
                        }
                    }
                },
                None => {
                    proof {
                        assert forall|other: u32|
                            other < assigned@.len()
                                && !assigned@[other as int] implies #[trigger] counts[other as int]
                            == 0 by {
                            if counts[other as int] > 0 {
                                assert(keys.contains(key(counts[other as int], other) as u128));
                            }
                        }
                    }
                    return None;
                },
            }
        }
    }

    /// What holds once a node was taken: all of `wf`, but that the node taken
    /// need not have its key any more.
    spec fn wf_after_take(self, assigned: Seq<bool>, next: Option<u32>) -> bool {
        match next {
            Some(node) => self.wf(assigned.update(node as int, true)),
            None => self.wf(assigned),
        }
    }

    /// Forgets every edge count.
    fn reset(&mut self)
        requires
            forall|at: int|
                0 <= at < old(self).touched@.len() ==> #[trigger] old(self).touched@[at] < old(self).counts@.len(),
            old(self).counts@.len() <= u32::MAX,
            forall|node: int|
                0 <= node < old(self).counts@.len() && #[trigger] old(self).counts@[node] != 0
                    ==> old(self).touched@.contains(node as u32),
        ensures
            final(self).heap.wf(),
            final(self).heap@ == Multiset::<u128>::empty(),
            final(self).counts@.len() == old(self).counts@.len(),
            forall|node: int|
                0 <= node < final(self).counts@.len() ==> #[trigger] final(self).counts@[node] == 0,
            final(self).touched@.len() == 0,
    {
        let ghost touched = self.touched@;
        assert(touched.skip(0) =~= touched);
        let mut at: usize = 0;
        while at < self.touched.len()
            invariant
                at <= touched.len(),
                self.touched@ == touched,
                self.counts@.len() == old(self).counts@.len(),
                self.counts@.len() <= u32::MAX,
                forall|at: int|
                    0 <= at < touched.len() ==> #[trigger] touched[at] < self.counts@.len(),
                forall|node: int|
                    0 <= node < self.counts@.len() && #[trigger] self.counts@[node] != 0
                        ==> touched.skip(at as int).contains(node as u32),
            decreases touched.len() - at,
        {
            let node: u32 = self.touched[at];
            let ghost counts = self.counts@;
            self.counts[node as usize] = 0;
            proof {
                assert forall|other: int|
                    0 <= other < self.counts@.len() && #[trigger] self.counts@[other]
                        != 0 implies touched.skip(at + 1).contains(other as u32) by {
                    assert(counts[other] != 0);
                    let rest = touched.skip(at as int);
                    let place = choose|place: int|
                        0 <= place < rest.len() && rest[place] == other as u32;
                    assert(place != 0);
                    assert(touched.skip(at + 1)[place - 1] == other as u32);
                }
            }
            at += 1;
        }
        proof {
            assert forall|node: int| 0 <= node < self.counts@.len() implies #[trigger] self.counts@[node]
                == 0 by {
                assert(touched.skip(at as int).len() == 0);
            }
        }
        self.touched.clear();
        self.heap = MaxHeap::new();
    }
}

/// `assigned` marks the nodes placed before, in earlier blocks or this one.
spec fn marks(assigned: Seq<bool>, placed: Seq<u32>, block: Seq<u32>) -> bool {
    forall|node: u32|
        node < assigned.len() ==> (#[trigger] assigned[node as int] <==> placed.contains(node)
            || block.contains(node))
}

/// `lowest` is the lowest node that is not assigned, or the number of nodes.
spec fn is_lowest_free(assigned: Seq<bool>, lowest: int) -> bool {
    &&& 0 <= lowest <= assigned.len()
    &&& forall|node: int| 0 <= node < lowest ==> #[trigger] assigned[node]
    &&& lowest < assigned.len() ==> !assigned[lowest]
}

/// The kept counts of free nodes are those of the block.
spec fn counts_edges(
    adjacency: Seq<Seq<u32>>,
    block: Seq<u32>,
    assigned: Seq<bool>,
    counts: Seq<u32>,
) -> bool {
    forall|node: u32|
        node < assigned.len() && !assigned[node as int] ==> #[trigger] counts[node as int]
            == capped(edges_into(adjacency, block, node) as int)
}

/// The lowest node from `from` on that is not assigned, or the number of nodes.
fn next_free(assigned: &Vec<bool>, from: usize) -> (lowest: usize)
    requires
        from <= assigned@.len(),
        forall|node: int| 0 <= node < from ==> #[trigger] assigned@[node],
    ensures
        is_lowest_free(assigned@, lowest as int),
        from <= lowest,
{
    let mut lowest: usize = from;
    while lowest < assigned.len() && assigned[lowest]
        invariant
            from <= lowest <= assigned@.len(),
            forall|node: int| 0 <= node < lowest ==> #[trigger] assigned@[node],
        decreases assigned@.len() - lowest,
    {
        lowest += 1;
    }
    lowest
}

/// Fills one block, starting from the lowest node that is not assigned.
fn fill_block(
    index: &MappedIndex<'_>,
    capacity: usize,
    assigned: &mut Vec<bool>,
    frontier: &mut Frontier,
    start: usize,
    Ghost(placed): Ghost<Seq<u32>>,
) -> (result: (Vec<u32>, usize))
    requires
        index.wf(),
        capacity > 0,
        old(assigned)@.len() == index.fields.num_points,
        marks(old(assigned)@, placed, Seq::empty()),
        is_lowest_free(old(assigned)@, start as int),
        start < old(assigned)@.len(),
        old(frontier).wf(old(assigned)@),
        forall|node: int|
            0 <= node < old(frontier).counts@.len() ==> #[trigger] old(frontier).counts@[node] == 0,
    ensures
        final(assigned)@.len() == old(assigned)@.len(),
        1 <= result.0@.len() <= capacity,
        is_greedy(index.adjacency(), placed, result.0@),
        marks(final(assigned)@, placed, result.0@),
        is_lowest_free(final(assigned)@, result.1 as int),
        start < result.1,
        result.1 < final(assigned)@.len() ==> result.0@.len() == capacity,
        final(frontier).heap.wf(),
        final(frontier).heap@ == Multiset::<u128>::empty(),
        final(frontier).counts@.len() == old(frontier).counts@.len(),
        forall|node: int|
            0 <= node < final(frontier).counts@.len() ==> #[trigger] final(frontier).counts@[node]
                == 0,
        final(frontier).touched@.len() == 0,
{
    let ghost adjacency = index.adjacency();
    let ghost count = index.fields.num_points as int;
    let mut block: Vec<u32> = Vec::new();
    let mut lowest: usize = start;
    let mut candidate: u32 = start as u32;
    proof {
        index.lemma_wf();
        assert(is_next(adjacency, placed, block@, candidate)) by {
            assert forall|other: u32| #[trigger]
                is_free(adjacency, placed, block@, other) implies candidate <= other by {
                assert(!assigned@[other as int]);
            }
            assert(!assigned@[candidate as int]);
        }
    }
    while block.len() < capacity && lowest < assigned.len()
        invariant
            index.wf(),
            adjacency == index.adjacency(),
            adjacency.len() == count,
            count == index.fields.num_points,
            count <= u32::MAX,
            assigned@.len() == count,
            frontier.counts@.len() == count,
            0 < capacity,
            block@.len() <= capacity,
            block@.len() == 0 ==> lowest == start && candidate == start && start < count,
            block@.len() > 0 ==> start < lowest,
            start <= lowest <= count,
            is_greedy(adjacency, placed, block@),
            marks(assigned@, placed, block@),
            is_lowest_free(assigned@, lowest as int),
            counts_edges(adjacency, block@, assigned@, frontier.counts@),
            forall|at: int|
                0 <= at < frontier.touched@.len() ==> #[trigger] frontier.touched@[at] < count,
            forall|node: int|
                0 <= node < count && #[trigger] frontier.counts@[node] != 0
                    ==> frontier.touched@.contains(node as u32),
            block@.len() < capacity && lowest < count ==> is_next(
                adjacency,
                placed,
                block@,
                candidate,
            ) && frontier.wf(assigned@.update(candidate as int, true)),
        decreases capacity - block@.len(),
    {
        let ghost old_block = block@;
        let ghost old_marks = assigned@;
        let ghost old_counts = frontier.counts@;
        assigned[candidate as usize] = true;
        block.push(candidate);
        proof {
            assert(block@.drop_last() =~= old_block);
            assert forall|at: int| 0 <= at < block@.len() implies is_next(
                adjacency,
                placed,
                block@.take(at),
                #[trigger] block@[at],
            ) by {
                if at < old_block.len() {
                    assert(block@.take(at) =~= old_block.take(at));
                    assert(old_block[at] == block@[at]);
                } else {
                    assert(block@.take(at) =~= old_block);
                }
            }
            assert(marks(assigned@, placed, block@)) by {
                assert forall|node: u32| node < assigned@.len() implies (
                #[trigger] assigned@[node as int] <==> placed.contains(node) || block@.contains(
                    node,
                )) by {
                    if node == candidate {
                        assert(block@[old_block.len() as int] == node);
                    } else {
                        assert(old_marks[node as int] == assigned@[node as int]);
                        if old_block.contains(node) {
                            let at = choose|at: int|
                                0 <= at < old_block.len() && old_block[at] == node;
                            assert(block@[at] == node);
                        }
                        if block@.contains(node) {
                            let at = choose|at: int| 0 <= at < block@.len() && block@[at] == node;
                            assert(old_block[at] == node);
                        }
                    }
                }
            }
            assert forall|node: int| 0 <= node < lowest implies #[trigger] assigned@[node] by {
                assert(old_marks[node]);
            }
        }
        lowest = next_free(assigned, lowest);
        assert(old_block.len() == 0 ==> assigned@[start as int]);
        let list = index.neighbors(candidate);
        proof {
            index.lemma_wf();
            assert forall|at: int| 0 <= at < list@.len() implies #[trigger] list@[at]
                < assigned@.len() by {
                assert(index.adjacency()[candidate as int][at] < count);
            }
        }
        frontier.absorb(&list, assigned);
        proof {
            assert forall|node: u32|
                node < assigned@.len()
                    && !assigned@[node as int] implies #[trigger] frontier.counts@[node as int]
                == capped(edges_into(adjacency, block@, node) as int) by {
                assert(!old_marks[node as int]);
                assert(old_counts[node as int] == capped(
                    edges_into(adjacency, old_block, node) as int,
                ));
            }
        }
        let next: Option<u32> = frontier.take_next(assigned);
        candidate = match next {
            Some(node) => node,
            None => lowest as u32,
        };
        proof {
            if lowest < count {
                assert(is_next(adjacency, placed, block@, candidate)) by {
                    assert(!assigned@[candidate as int]);
                    assert forall|other: u32| #[trigger]
                        is_free(adjacency, placed, block@, other) implies ({
                        let own = capped(edges_into(adjacency, block@, candidate) as int);
                        let other_count = capped(edges_into(adjacency, block@, other) as int);
                        other_count < own || (other_count == own && candidate <= other)
                    }) by {
                        assert(!assigned@[other as int]);
                        assert(frontier.counts@[other as int] == capped(
                            edges_into(adjacency, block@, other) as int,
                        ));
                        assert(frontier.counts@[candidate as int] == capped(
                            edges_into(adjacency, block@, candidate) as int,
                        ));
                    }
                }
            }
            assert(lowest < count ==> frontier.wf(assigned@.update(candidate as int, true)));
        }
    }
    frontier.reset();
    (block, lowest)
}

/// Packs the nodes of an index greedily into blocks of `capacity` nodes.
pub fn pack_nodes(index: &MappedIndex<'_>, capacity: usize) -> (result: Result<
    Vec<Vec<u32>>,
    LayoutError,
>)
    requires
        index.wf(),
        capacity > 0,
    ensures
        result is Ok,
        is_packing(index.adjacency(), capacity as nat, block_views(result->Ok_0@)),
{
    proof {
        index.lemma_wf();
        crate::layout::index::lemma_record_in_index(
            index.fields,
            index.fields.num_points - 1,
        );
        index.lemma_point_count();
    }
    let ghost adjacency = index.adjacency();
    let count: usize = index.fields.num_points as usize;
    let mut assigned: Vec<bool> = vec![false; count];
    let mut frontier = Frontier {
        heap: MaxHeap::new(),
        counts: vec![0u32; count],
        touched: Vec::new(),
    };
    let mut blocks: Vec<Vec<u32>> = Vec::new();
    let mut lowest: usize = 0;
    while lowest < count
        invariant
            index.wf(),
            capacity > 0,
            count == index.fields.num_points,
            count <= u32::MAX,
            adjacency == index.adjacency(),
            adjacency.len() == count,
            assigned@.len() == count,
            is_lowest_free(assigned@, lowest as int),
            marks(assigned@, nodes_of(block_views(blocks@)), Seq::empty()),
            frontier.heap.wf(),
            frontier.heap@ == Multiset::<u128>::empty(),
            frontier.counts@.len() == count,
            forall|node: int|
                0 <= node < frontier.counts@.len() ==> #[trigger] frontier.counts@[node] == 0,
            frontier.touched@.len() == 0,
            forall|at: int|
                0 <= at < blocks@.len() ==> 1 <= (#[trigger] block_views(blocks@)[at]).len()
                    <= capacity,
            forall|at: int|
                0 <= at < blocks@.len() && (lowest < count || at < blocks@.len() - 1) ==> (
                #[trigger] block_views(blocks@)[at]).len() == capacity,
            forall|at: int|
                0 <= at < blocks@.len() ==> is_greedy(
                    adjacency,
                    nodes_of(block_views(blocks@).take(at)),
                    #[trigger] block_views(blocks@)[at],
                ),
        decreases count - lowest,
    {
        let ghost views = block_views(blocks@);
        let ghost placed = nodes_of(views);
        let (block, next) = fill_block(
            index,
            capacity,
            &mut assigned,
            &mut frontier,
            lowest,
            Ghost(placed),
        );
        let ghost filled = block@;
        blocks.push(block);
        lowest = next;
        proof {
            let grown = block_views(blocks@);
            assert(grown =~= views.push(filled));
            assert(grown.drop_last() =~= views);
            assert(nodes_of(grown) == placed + filled);
            assert forall|node: u32| node < assigned@.len() implies (
            #[trigger] assigned@[node as int] <==> nodes_of(grown).contains(node)
                || Seq::<u32>::empty().contains(node)) by {
                lemma_contains_concat(placed, filled, node);
            }
            assert forall|at: int| 0 <= at < blocks@.len() implies is_greedy(
                adjacency,
                nodes_of(grown.take(at)),
                #[trigger] grown[at],
            ) by {
                if at < views.len() {
                    assert(grown.take(at) =~= views.take(at));
                    assert(grown[at] == views[at]);
                } else {
                    assert(grown.take(at) =~= views);
                }
            }
            assert forall|at: int| 0 <= at < blocks@.len() implies 1 <= (#[trigger] grown[at]).len()
                <= capacity by {
                if at < views.len() {
                    assert(grown[at] == views[at]);
                }
            }
            assert forall|at: int|
                0 <= at < blocks@.len() && (lowest < count || at < blocks@.len() - 1) implies (
            #[trigger] grown[at]).len() == capacity by {
                if at < views.len() {
                    assert(grown[at] == views[at]);
                }
            }
        }
    }
    proof {
        let views = block_views(blocks@);
        assert forall|node: u32| node < adjacency.len() implies #[trigger] nodes_of(views).contains(
            node,
        ) by {
            assert(assigned@[node as int]);
        }
    }
    Ok(blocks)
}

/// A concatenation holds what its parts hold.
proof fn lemma_contains_concat(left: Seq<u32>, right: Seq<u32>, node: u32)
    ensures
        (left + right).contains(node) <==> left.contains(node) || right.contains(node),
{
    let both = left + right;
    if left.contains(node) {
        let at = choose|at: int| 0 <= at < left.len() && left[at] == node;
        assert(both[at] == node);
    }
    if right.contains(node) {
        let at = choose|at: int| 0 <= at < right.len() && right[at] == node;
        assert(both[left.len() + at] == node);
    }
    if both.contains(node) {
        let at = choose|at: int| 0 <= at < both.len() && both[at] == node;
        if at < left.len() {
            assert(left[at] == node);
        } else {
            assert(right[at - left.len()] == node);
        }
    }
}

/// Only one node comes next.
proof fn lemma_next_is_unique(
    adjacency: Seq<Seq<u32>>,
    placed: Seq<u32>,
    block: Seq<u32>,
    left: u32,
    right: u32,
)
    requires
        is_next(adjacency, placed, block, left),
        is_next(adjacency, placed, block, right),
    ensures
        left == right,
{
    assert(is_free(adjacency, placed, block, left));
    assert(is_free(adjacency, placed, block, right));
}

/// The blocks up to `count` hold distinct nodes.
proof fn lemma_blocks_are_distinct(
    adjacency: Seq<Seq<u32>>,
    capacity: nat,
    blocks: Seq<Seq<u32>>,
    count: int,
)
    requires
        is_packing(adjacency, capacity, blocks),
        0 <= count <= blocks.len(),
    ensures
        nodes_of(blocks.take(count)).no_duplicates(),
        forall|at: int|
            0 <= at < nodes_of(blocks.take(count)).len() ==> #[trigger] nodes_of(
                blocks.take(count),
            )[at] < adjacency.len(),
    decreases count,
{
    if count > 0 {
        lemma_blocks_are_distinct(adjacency, capacity, blocks, count - 1);
        let placed = nodes_of(blocks.take(count - 1));
        let block = blocks[count - 1];
        let all = nodes_of(blocks.take(count));
        assert(blocks.take(count).drop_last() =~= blocks.take(count - 1));
        assert(all == placed + block);
        assert(is_greedy(adjacency, placed, block));
        assert forall|at: int| 0 <= at < all.len() implies #[trigger] all[at] < adjacency.len() by {
            if at >= placed.len() {
                let within = at - placed.len();
                assert(is_next(adjacency, placed, block.take(within), block[within]));
            }
        }
        assert forall|i: int, j: int| 0 <= i < j < all.len() implies all[i] != all[j] by {
            if j >= placed.len() {
                let within = j - placed.len();
                assert(is_next(adjacency, placed, block.take(within), block[within]));
                if i < placed.len() {
                    assert(placed[i] == all[i]);
                } else {
                    assert(block.take(within)[i - placed.len()] == all[i]);
                }
            } else {
                assert(placed[i] == all[i] && placed[j] == all[j]);
            }
        }
    }
}

/// A packing is a partition: every node is in it exactly once.
pub proof fn lemma_packing_is_partition(
    adjacency: Seq<Seq<u32>>,
    capacity: nat,
    blocks: Seq<Seq<u32>>,
)
    requires
        is_packing(adjacency, capacity, blocks),
        adjacency.len() <= u32::MAX,
    ensures
        nodes_of(blocks).no_duplicates(),
        nodes_of(blocks).len() == adjacency.len(),
        forall|node: u32|
            node < adjacency.len() <==> #[trigger] nodes_of(blocks).contains(node),
{
    lemma_blocks_are_distinct(adjacency, capacity, blocks, blocks.len() as int);
    assert(blocks.take(blocks.len() as int) =~= blocks);
    lemma_cover_len(nodes_of(blocks), adjacency.len());
}

/// Distinct numbers that are all the numbers below `count` are `count` numbers.
pub proof fn lemma_cover_len(nodes: Seq<u32>, count: nat)
    requires
        nodes.no_duplicates(),
        count <= u32::MAX,
        forall|at: int| 0 <= at < nodes.len() ==> #[trigger] nodes[at] < count,
        forall|node: u32| node < count ==> #[trigger] nodes.contains(node),
    ensures
        nodes.len() == count,
{
    let ints = nodes.map_values(|node: u32| node as int);
    assert(ints.no_duplicates());
    ints.unique_seq_to_set();
    let range = vstd::set_lib::set_int_range(0, count as int);
    vstd::set_lib::lemma_int_range(0, count as int);
    assert(ints.to_set() =~= range) by {
        assert forall|value: int| range.contains(value) implies ints.to_set().contains(value) by {
            assert(nodes.contains(value as u32));
            let at = choose|at: int| 0 <= at < nodes.len() && nodes[at] == value as u32;
            assert(ints[at] == value);
        }
        assert forall|value: int| ints.to_set().contains(value) implies range.contains(value) by {
            let at = choose|at: int| 0 <= at < ints.len() && ints[at] == value;
            assert(nodes[at] < count);
        }
    }
}

/// Each block starts with the lowest node that no earlier block holds.
pub proof fn lemma_block_starts_with_lowest(
    adjacency: Seq<Seq<u32>>,
    capacity: nat,
    blocks: Seq<Seq<u32>>,
    at: int,
    node: u32,
)
    requires
        is_packing(adjacency, capacity, blocks),
        0 <= at < blocks.len(),
    ensures
        !nodes_of(blocks.take(at)).contains(blocks[at][0]),
        node < blocks[at][0] ==> nodes_of(blocks.take(at)).contains(node),
{
    let placed = nodes_of(blocks.take(at));
    let first = blocks[at][0];
    assert(is_greedy(adjacency, placed, blocks[at]));
    assert(is_next(adjacency, placed, blocks[at].take(0), first));
    if node < first && !placed.contains(node) {
        assert(is_free(adjacency, placed, blocks[at].take(0), node));
    }
}

/// Two greedy blocks behind the same nodes agree as far as both go.
proof fn lemma_greedy_blocks_agree(
    adjacency: Seq<Seq<u32>>,
    placed: Seq<u32>,
    left: Seq<u32>,
    right: Seq<u32>,
    count: int,
)
    requires
        is_greedy(adjacency, placed, left),
        is_greedy(adjacency, placed, right),
        0 <= count <= left.len(),
        count <= right.len(),
    ensures
        left.take(count) == right.take(count),
    decreases count,
{
    if count > 0 {
        lemma_greedy_blocks_agree(adjacency, placed, left, right, count - 1);
        lemma_next_is_unique(
            adjacency,
            placed,
            left.take(count - 1),
            left[count - 1],
            right[count - 1],
        );
        assert(left.take(count) =~= left.take(count - 1).push(left[count - 1]));
        assert(right.take(count) =~= right.take(count - 1).push(right[count - 1]));
    } else {
        assert(left.take(0) =~= right.take(0));
    }
}

/// Two packings that agree on their first `at` blocks cannot differ in that one of
/// them has a longer block `at`, nor in that only one has it.
proof fn lemma_no_longer_block(
    adjacency: Seq<Seq<u32>>,
    capacity: nat,
    left: Seq<Seq<u32>>,
    right: Seq<Seq<u32>>,
    at: int,
)
    requires
        is_packing(adjacency, capacity, left),
        is_packing(adjacency, capacity, right),
        0 <= at < right.len(),
        at <= left.len(),
        left.take(at) == right.take(at),
    ensures
        at < left.len(),
        right[at].len() <= left[at].len(),
{
    let placed = nodes_of(right.take(at));
    assert(is_greedy(adjacency, placed, right[at]));
    if at == left.len() {
        assert(left.take(at) =~= left);
        let first = right[at][0];
        assert(is_next(adjacency, placed, right[at].take(0), first));
        assert(nodes_of(left).contains(first));
    } else if left[at].len() < right[at].len() {
        let shorter = left[at].len() as int;
        assert(is_greedy(adjacency, nodes_of(left.take(at)), left[at]));
        lemma_greedy_blocks_agree(adjacency, placed, left[at], right[at], shorter);
        assert(left[at].take(shorter) =~= left[at]);
        assert(at == left.len() - 1) by {
            if at < left.len() - 1 {
                assert(left[at].len() == capacity);
            }
        }
        assert(left.drop_last() =~= left.take(at));
        assert(nodes_of(left) == placed + left[at]);
        let extra = right[at][shorter];
        assert(is_next(adjacency, placed, right[at].take(shorter), extra));
        assert(nodes_of(left).contains(extra));
        lemma_contains_concat(placed, left[at], extra);
    }
}

/// Packing is deterministic: a graph and a capacity have one packing.
pub proof fn lemma_packing_is_unique(
    adjacency: Seq<Seq<u32>>,
    capacity: nat,
    left: Seq<Seq<u32>>,
    right: Seq<Seq<u32>>,
)
    requires
        is_packing(adjacency, capacity, left),
        is_packing(adjacency, capacity, right),
    ensures
        left == right,
{
    lemma_packings_agree(adjacency, capacity, left, right, left.len() as int);
    assert(left.take(left.len() as int) =~= left);
    if left.len() < right.len() {
        lemma_no_longer_block(adjacency, capacity, left, right, left.len() as int);
    }
    assert(right.take(left.len() as int) =~= right);
}

/// Two packings agree on every block that the first has.
proof fn lemma_packings_agree(
    adjacency: Seq<Seq<u32>>,
    capacity: nat,
    left: Seq<Seq<u32>>,
    right: Seq<Seq<u32>>,
    count: int,
)
    requires
        is_packing(adjacency, capacity, left),
        is_packing(adjacency, capacity, right),
        0 <= count <= left.len(),
    ensures
        count <= right.len(),
        left.take(count) == right.take(count),
    decreases count,
{
    if count > 0 {
        let at = count - 1;
        lemma_packings_agree(adjacency, capacity, left, right, at);
        lemma_no_longer_block(adjacency, capacity, right, left, at);
        lemma_no_longer_block(adjacency, capacity, left, right, at);
        let placed = nodes_of(left.take(at));
        assert(is_greedy(adjacency, placed, left[at]));
        assert(is_greedy(adjacency, nodes_of(right.take(at)), right[at]));
        let length = left[at].len() as int;
        lemma_greedy_blocks_agree(adjacency, placed, left[at], right[at], length);
        assert(left[at].take(length) =~= left[at]);
        assert(right[at].take(length) =~= right[at]);
        assert(left.take(count) =~= left.take(at).push(left[at]));
        assert(right.take(count) =~= right.take(at).push(right[at]));
    } else {
        assert(left.take(0) =~= right.take(0));
    }
}

/// The nodes of the blocks are the blocks put one behind the other.
pub proof fn lemma_nodes_of_is_flatten(blocks: Seq<Seq<u32>>)
    ensures
        nodes_of(blocks) == blocks.flatten(),
    decreases blocks.len(),
{
    blocks.lemma_flatten_and_flatten_alt_are_equivalent();
    if blocks.len() > 0 {
        lemma_nodes_of_is_flatten(blocks.drop_last());
        blocks.drop_last().lemma_flatten_and_flatten_alt_are_equivalent();
    }
}

/// The edges that lead from a block to a node are all entries of the adjacency lists of the
/// nodes of the block that name it, counted as often as they occur.
pub proof fn lemma_edges_into_counts_entries(
    adjacency: Seq<Seq<u32>>,
    block: Seq<u32>,
    node: u32,
)
    ensures
        edges_into(adjacency, block, node) == Seq::new(
            block.len(),
            |at: int| adjacency[block[at] as int],
        ).flatten().filter(|other: u32| other == node).len(),
    decreases block.len(),
{
    let lists = Seq::new(block.len(), |at: int| adjacency[block[at] as int]);
    let named = |other: u32| other == node;
    lists.lemma_flatten_and_flatten_alt_are_equivalent();
    if block.len() > 0 {
        let front = block.drop_last();
        let fewer = Seq::new(front.len(), |at: int| adjacency[front[at] as int]);
        lemma_edges_into_counts_entries(adjacency, front, node);
        fewer.lemma_flatten_and_flatten_alt_are_equivalent();
        assert(lists.drop_last() =~= fewer);
        assert(lists.last() == adjacency[block.last() as int]);
        Seq::filter_distributes_over_add(fewer.flatten_alt(), lists.last(), named);
        lemma_occurrences_is_filter(lists.last(), node);
    } else {
        reveal(Seq::filter);
    }
}

/// A node occurs in a list as often as the list has entries that name it.
proof fn lemma_occurrences_is_filter(list: Seq<u32>, node: u32)
    ensures
        occurrences(list, node) == list.filter(|other: u32| other == node).len(),
    decreases list.len(),
{
    reveal(Seq::filter);
    if list.len() > 0 {
        lemma_occurrences_is_filter(list.drop_last(), node);
    }
}

/// Blocks are filled up: there are as few as can hold all nodes, all but the last hold
/// `capacity` nodes, and so the nodes stand in them `capacity` at a time.
pub proof fn lemma_packing_fills_blocks(
    adjacency: Seq<Seq<u32>>,
    capacity: nat,
    blocks: Seq<Seq<u32>>,
    at: int,
    within: int,
)
    requires
        is_packing(adjacency, capacity, blocks),
        0 < capacity,
        adjacency.len() <= u32::MAX,
        0 <= at < blocks.len(),
        0 <= within < blocks[at].len(),
    ensures
        adjacency.len() <= blocks.len() * capacity < adjacency.len() + capacity,
        at < blocks.len() - 1 ==> blocks[at].len() == capacity,
        blocks.flatten()[at * capacity + within] == blocks[at][within],
        0 <= at * capacity + within < adjacency.len(),
{
    lemma_packing_is_partition(adjacency, capacity, blocks);
    lemma_nodes_of_is_flatten(blocks);
    lemma_full_blocks(blocks, capacity, blocks.len() as int, at, within);
    let last = blocks.len() - 1;
    lemma_full_blocks(blocks, capacity, last, 0, 0);
    assert(blocks.take(blocks.len() as int) =~= blocks);
    assert(blocks.drop_last() =~= blocks.take(last));
    assert(nodes_of(blocks).len() == last * capacity + blocks[last].len());
    assert(last * capacity + capacity == blocks.len() * capacity) by (nonlinear_arith)
        requires
            last == blocks.len() - 1,
    ;
}

/// The first blocks hold `capacity` nodes each.
proof fn lemma_full_blocks(
    blocks: Seq<Seq<u32>>,
    capacity: nat,
    count: int,
    at: int,
    within: int,
)
    requires
        0 <= count <= blocks.len(),
        forall|block: int|
            0 <= block < blocks.len() - 1 ==> (#[trigger] blocks[block]).len() == capacity,
    ensures
        count < blocks.len() ==> nodes_of(blocks.take(count)).len() == count * capacity,
        0 <= at < count && 0 <= within < blocks[at].len() ==> 0 <= at * capacity + within
            < nodes_of(blocks.take(count)).len() && nodes_of(blocks.take(count))[at * capacity
            + within] == blocks[at][within],
    decreases count,
{
    if count > 0 {
        let shorter = blocks.take(count).drop_last();
        assert(shorter =~= blocks.take(count - 1));
        lemma_full_blocks(blocks, capacity, count - 1, at, within);
        assert((count - 1) * capacity + capacity == count * capacity) by (nonlinear_arith);
        assert(nodes_of(shorter).len() == (count - 1) * capacity);
        if 0 <= at == count - 1 && 0 <= within < blocks[at].len() {
            assert(0 <= at * capacity) by (nonlinear_arith)
                requires
                    0 <= at,
            ;
        }
    }
}

/// What is placed where: each node of a packing is one that is left over by the blocks
/// before and by the nodes before it in its block, and of all nodes left over it is the one
/// that the most entries in the adjacency lists of those nodes name, and the lowest of
/// several that as many name.
pub proof fn lemma_packing_takes_most_named(
    adjacency: Seq<Seq<u32>>,
    capacity: nat,
    blocks: Seq<Seq<u32>>,
    at: int,
    within: int,
    other: u32,
)
    requires
        is_packing(adjacency, capacity, blocks),
        0 <= at < blocks.len(),
        0 <= within < blocks[at].len(),
        other < adjacency.len(),
        !blocks.take(at).flatten().contains(other),
        !blocks[at].take(within).contains(other),
    ensures
        ({
            let node = blocks[at][within];
            let entries = Seq::new(
                within as nat,
                |before: int| adjacency[blocks[at][before] as int],
            ).flatten();
            let named = entries.filter(|entry: u32| entry == node).len();
            let other_named = entries.filter(|entry: u32| entry == other).len();
            &&& node < adjacency.len()
            &&& !blocks.take(at).flatten().contains(node)
            &&& !blocks[at].take(within).contains(node)
            &&& other_named > named ==> named >= u32::MAX
            &&& other_named == named ==> node <= other
        }),
{
    let block = blocks[at].take(within);
    let placed = nodes_of(blocks.take(at));
    let node = blocks[at][within];
    lemma_nodes_of_is_flatten(blocks.take(at));
    assert(is_greedy(adjacency, placed, blocks[at]));
    assert(is_next(adjacency, placed, block, node));
    assert(is_free(adjacency, placed, block, other));
    lemma_edges_into_counts_entries(adjacency, block, node);
    lemma_edges_into_counts_entries(adjacency, block, other);
    assert(Seq::new(block.len(), |before: int| adjacency[block[before] as int]) =~= Seq::new(
        within as nat,
        |before: int| adjacency[blocks[at][before] as int],
    ));
}

} // verus!
