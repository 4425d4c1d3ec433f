//! Breadth-first walks over a graph whose adjacency lists are read in batches.
use crate::bytes;
use crate::node_set;
use crate::node_set::NodeSet;
use std::collections::VecDeque;
use vstd::prelude::*;

verus! {

/// Nodes whose adjacency lists are read at a time.
pub const BEAM_WIDTH_FOR_BFS: usize = 32;

/// Where a breadth-first walk stands: the nodes it has come across, those it has
/// still to visit, in order, and those it has visited, in order.
#[verifier::ext_equal]
pub struct WalkState {
    pub known: Set<u32>,
    pub waiting: Seq<u32>,
    pub visited: Seq<u32>,
}

impl WalkState {
    /// The state once the nodes of `list` were come across.
    pub open spec fn enqueue(self, list: Seq<u32>) -> WalkState
        decreases list.len(),
    {
        if list.len() == 0 {
            self
        } else {
            let before = self.enqueue(list.drop_last());
            if before.known.contains(list.last()) {
                before
            } else {
                WalkState {
                    known: before.known.insert(list.last()),
                    waiting: before.waiting.push(list.last()),
                    visited: before.visited,
                }
            }
        }
    }

    /// The state once the first waiting node, with the neighbors `list`, was visited.
    pub open spec fn visit(self, list: Seq<u32>) -> WalkState {
        WalkState {
            known: self.known,
            waiting: self.waiting.skip(1),
            visited: self.visited.push(self.waiting[0]),
        }.enqueue(list)
    }

    /// Whether the walk is over: nothing waits or `limit` nodes were visited.
    pub open spec fn is_over(self, limit: int) -> bool {
        self.waiting.len() == 0 || self.visited.len() >= limit
    }

    /// The state in which the walk over a graph ends.
    pub open spec fn run(self, lists: spec_fn(u32) -> Seq<u32>, limit: int) -> WalkState
        decreases limit - self.visited.len(),
    {
        if self.is_over(limit) {
            self
        } else {
            proof {
                self.lemma_visit(lists(self.waiting[0]));
            }
            self.visit(lists(self.waiting[0])).run(lists, limit)
        }
    }

    /// Visiting a node adds it to those visited.
    pub proof fn lemma_visit(self, list: Seq<u32>)
        ensures
            self.visit(list).visited == self.visited.push(self.waiting[0]),
    {
        lemma_enqueue_keeps_visited(
            WalkState {
                known: self.known,
                waiting: self.waiting.skip(1),
                visited: self.visited.push(self.waiting[0]),
            },
            list,
        );
    }
}

/// The state before any node was visited.
pub open spec fn start_state(start_nodes: Seq<u32>) -> WalkState {
    WalkState { known: Set::empty(), waiting: Seq::empty(), visited: Seq::empty() }.enqueue(
        start_nodes,
    )
}

/// Coming across nodes does not visit any.
pub proof fn lemma_enqueue_keeps_visited(state: WalkState, list: Seq<u32>)
    ensures
        state.enqueue(list).visited == state.visited,
    decreases list.len(),
{
    if list.len() > 0 {
        lemma_enqueue_keeps_visited(state, list.drop_last());
    }
}

/// A walk over a graph that hands out batches of nodes and takes their adjacency
/// lists back one by one.
#[derive(Debug)]
pub struct BfsWalk {
    known: NodeSet,
    queue: VecDeque<u32>,
    batch: Vec<u32>,
    next_in_batch: usize,
    visited: Vec<u32>,
    limit: usize,
}

impl View for BfsWalk {
    type V = WalkState;

    closed spec fn view(&self) -> WalkState {
        WalkState {
            known: self.known@,
            waiting: self.batch@.skip(self.next_in_batch as int) + self.queue@,
            visited: self.visited@,
        }
    }
}

impl BfsWalk {
    /// The batch is read as far as its next node.
    pub closed spec fn wf(self) -> bool {
        self.next_in_batch <= self.batch@.len()
    }

    /// The number of nodes after which the walk is over.
    pub closed spec fn spec_limit(self) -> usize {
        self.limit
    }

    /// The nodes of the batch whose adjacency lists are still to be taken.
    pub closed spec fn pending(self) -> Seq<u32> {
        self.batch@.skip(self.next_in_batch as int)
    }

    /// Starts a walk from the given nodes, over when `num_nodes` were visited.
    pub fn start(start_nodes: &[u32], num_nodes: usize) -> (walk: Self)
        ensures
            walk.wf(),
            walk@ == start_state(start_nodes@),
            walk@.visited.len() == 0,
            walk@.known == start_nodes@.to_set(),
            walk.spec_limit() == num_nodes,
            walk.pending().len() == 0,
    {
        let mut walk = BfsWalk {
            known: node_set::new_node_set(),
            queue: VecDeque::new(),
            batch: Vec::new(),
            next_in_batch: 0,
            visited: Vec::new(),
            limit: num_nodes,
        };
        assert(walk@ =~= (WalkState {
            known: Set::empty(),
            waiting: Seq::empty(),
            visited: Seq::empty(),
        }));
        proof {
            walk@.lemma_enqueue_comes_across(start_nodes@);
            assert(Set::<u32>::empty().union(start_nodes@.to_set()) =~= start_nodes@.to_set());
        }
        walk.enqueue(start_nodes);
        walk
    }

    /// Puts the nodes that were not come across before at the end of the queue.
    fn enqueue(&mut self, list: &[u32])
        requires
            old(self).wf(),
        ensures
            final(self).wf(),
            final(self)@ == old(self)@.enqueue(list@),
            final(self).limit == old(self).limit,
            final(self).batch@ == old(self).batch@,
            final(self).next_in_batch == old(self).next_in_batch,
    {
        let ghost before = self@;
        let mut at: usize = 0;
        assert(list@.take(0) =~= Seq::<u32>::empty());
        while at < list.len()
            invariant
                at <= list@.len(),
                self.wf(),
                before == old(self)@,
                self@ == before.enqueue(list@.take(at as int)),
                self.limit == old(self).limit,
                self.batch@ == old(self).batch@,
                self.next_in_batch == old(self).next_in_batch,
            decreases list@.len() - at,
        {
            let node: u32 = list[at];
            let ghost current = self@;
            assert(list@.take(at + 1).drop_last() =~= list@.take(at as int));
            if !node_set::has_node(&self.known, node) {
                self.queue.push_back(node);
                node_set::insert_node(&mut self.known, node);
                assert(self@ =~= (WalkState {
                    known: current.known.insert(node),
                    waiting: current.waiting.push(node),
                    visited: current.visited,
                }));
            }
            at += 1;
        }
        assert(list@.take(at as int) =~= list@);
    }

    /// Takes the next nodes whose adjacency lists are to be read, or tells that
    /// the walk is over.
    pub fn next_batch(&mut self) -> (batch: Option<Vec<u32>>)
        requires
            old(self).wf(),
            old(self).pending().len() == 0 || old(self)@.visited.len() >= old(self).spec_limit(),
        ensures
            final(self).wf(),
            final(self)@ == old(self)@,
            final(self).spec_limit() == old(self).spec_limit(),
            batch is None <==> old(self)@.is_over(old(self).spec_limit() as int),
            batch is None ==> final(self).pending() == old(self).pending(),
            batch is Some ==> {
                &&& 0 < batch->0@.len() <= BEAM_WIDTH_FOR_BFS
                &&& final(self).pending() == batch->0@
                &&& batch->0@ == old(self)@.waiting.take(batch->0@.len() as int)
                &&& batch->0@.len() < BEAM_WIDTH_FOR_BFS ==> batch->0@.len()
                    == old(self)@.waiting.len()
            },
    {
        let ghost before = self@;
        if self.visited.len() >= self.limit {
            return None;
        }
        assert(before.waiting =~= self.queue@);
        if self.queue.len() == 0 {
            return None;
        }
        let ghost queue = self.queue@;
        let mut batch: Vec<u32> = Vec::new();
        while batch.len() < BEAM_WIDTH_FOR_BFS && self.queue.len() > 0
            invariant
                batch@.len() <= BEAM_WIDTH_FOR_BFS,
                batch@ + self.queue@ == queue,
                self.known@ == before.known,
                self.visited@ == before.visited,
                self.limit == old(self).limit,
            decreases self.queue@.len(),
        {
            let ghost taken = batch@;
            let ghost rest = self.queue@;
            if let Some(node) = self.queue.pop_front() {
                batch.push(node);
                assert(batch@ + self.queue@ =~= taken + rest);
            }
        }
        assert(batch@ =~= queue.take(batch@.len() as int));
        let ghost handed = batch@;
        let copy: Vec<u32> = batch.clone();
        assert(copy@ =~= batch@);
        self.batch = batch;
        self.next_in_batch = 0;
        proof {
            assert(self.batch@.skip(0) =~= handed);
            assert(self@ =~= before);
        }
        Some(copy)
    }

    /// Visits the next node of the batch, given its adjacency list, and tells
    /// whether nodes of the batch are left to visit.
    pub fn visit(&mut self, list: &[u32]) -> (more: bool)
        requires
            old(self).wf(),
            old(self).pending().len() > 0,
        ensures
            final(self).wf(),
            final(self)@ == old(self)@.visit(list@),
            final(self)@.visited == old(self)@.visited.push(old(self)@.waiting[0]),
            final(self)@.known == old(self)@.known.union(list@.to_set()),
            final(self).spec_limit() == old(self).spec_limit(),
            final(self).pending() == old(self).pending().skip(1),
            more == (final(self)@.visited.len() < final(self).spec_limit() && final(
                self).pending().len() > 0),
    {
        let ghost before = self@;
        assert(self.next_in_batch < self.batch.len());
        let node: u32 = self.batch[self.next_in_batch];
        self.visited.push(node);
        self.next_in_batch = self.next_in_batch + 1;
        proof {
            assert(self@ =~= (WalkState {
                known: before.known,
                waiting: before.waiting.skip(1),
                visited: before.visited.push(before.waiting[0]),
            }));
        }
        self.enqueue(list);
        proof {
            assert(self.pending() =~= old(self).pending().skip(1));
            before.lemma_visit_comes_across_neighbors(list@);
        }
        self.visited.len() < self.limit && self.next_in_batch < self.batch.len()
    }

    /// The node that is visited next.
    pub fn next_node(&self) -> (node: u32)
        requires
            self.wf(),
            self.pending().len() > 0,
        ensures
            node == self@.waiting[0],
            node == self.pending()[0],
    {
        self.batch[self.next_in_batch]
    }

    /// The nodes that were visited, in order.
    pub fn into_nodes(self) -> (nodes: Vec<u32>)
        ensures
            nodes@ == self@.visited,
    {
        self.visited
    }
}

/// The neighbors that the record of a node lists behind its vector of `vector_bytes`: their
/// number, then the neighbors themselves. `None` where the record ends before its list does.
pub open spec fn listed_neighbors(record: Seq<u8>, vector_bytes: int) -> Option<Seq<u32>> {
    let count = bytes::u32_at(record, vector_bytes);
    if record.len() < vector_bytes + 4 || record.len() < vector_bytes + 4 + 4 * count {
        None
    } else {
        Some(
            Seq::new(
                count as nat,
                |at: int| bytes::u32_at(record, vector_bytes + 4 + 4 * at),
            ),
        )
    }
}

/// Reads the neighbors that the record of a node lists.
pub fn record_neighbors(record: &[u8], vector_bytes: usize) -> (list: Option<Vec<u32>>)
    ensures
        match listed_neighbors(record@, vector_bytes as int) {
            Some(neighbors) => list is Some && list->0@ == neighbors,
            None => list is None,
        },
{
    let length: usize = record.len();
    if length < vector_bytes || length - vector_bytes < 4 {
        return None;
    }
    let count: u32 = bytes::read_u32_at(record, vector_bytes);
    let room: usize = (length - vector_bytes - 4) / 4;
    if count as u64 > room as u64 {
        return None;
    }
    let ghost all = listed_neighbors(record@, vector_bytes as int)->0;
    let mut list: Vec<u32> = Vec::new();
    let mut at: usize = 0;
    while at < count as usize
        invariant
            at <= count <= room,
            room == (length - vector_bytes - 4) / 4,
            length == record@.len(),
            vector_bytes + 4 <= length,
            length <= usize::MAX,
            all.len() == count,
            forall|i: int|
                0 <= i < count ==> #[trigger] all[i] == bytes::u32_at(
                    record@,
                    vector_bytes + 4 + 4 * i,
                ),
            list@ == all.take(at as int),
        decreases count - at,
    {
        list.push(bytes::read_u32_at(record, vector_bytes + 4 + 4 * at));
        assert(all.take(at + 1) =~= all.take(at as int).push(all[at as int]));
        at += 1;
    }
    assert(all.take(at as int) =~= all);
    Some(list)
}

/// The adjacency list of a node, where lists are given for the first nodes.
pub open spec fn list_of(lists: Seq<Vec<u32>>, node: u32) -> Seq<u32> {
    if node < lists.len() {
        lists[node as int]@
    } else {
        Seq::empty()
    }
}

/// Coming across nodes keeps what all waiting nodes are.
proof fn lemma_enqueue_bound(state: WalkState, list: Seq<u32>, bound: int)
    requires
        forall|at: int| 0 <= at < state.waiting.len() ==> #[trigger] state.waiting[at] < bound,
        forall|at: int| 0 <= at < list.len() ==> #[trigger] list[at] < bound,
    ensures
        forall|at: int|
            0 <= at < state.enqueue(list).waiting.len() ==> #[trigger] state.enqueue(
                list,
            ).waiting[at] < bound,
    decreases list.len(),
{
    if list.len() > 0 {
        let front = list.drop_last();
        assert forall|at: int| 0 <= at < front.len() implies #[trigger] front[at] < bound by {
            assert(front[at] == list[at]);
        }
        lemma_enqueue_bound(state, front, bound);
        assert(list[list.len() - 1] < bound);
        let before = state.enqueue(front);
        let after = state.enqueue(list);
        assert forall|at: int| 0 <= at < after.waiting.len() implies #[trigger] after.waiting[at]
            < bound by {
            if at < before.waiting.len() {
                assert(before.waiting[at] < bound);
            }
        }
    }
}

/// Walks a graph, given its adjacency lists, from the start nodes until
/// `num_nodes` were visited. In which batches the lists are read does not matter:
/// the walk visits one node after the other.
pub fn walk_bfs(lists: &[Vec<u32>], start_nodes: &[u32], num_nodes: usize) -> (nodes: Vec<u32>)
    requires
        forall|at: int| 0 <= at < start_nodes@.len() ==> #[trigger] start_nodes@[at] < lists@.len(),
        forall|node: int, at: int|
            #![trigger lists@[node]@[at]]
            0 <= node < lists@.len() && 0 <= at < lists@[node]@.len() ==> lists@[node]@[at]
                < lists@.len(),
    ensures
        nodes@ == start_state(start_nodes@).run(
            |node: u32| list_of(lists@, node),
            num_nodes as int,
        ).visited,
        nodes@.no_duplicates(),
        nodes@.len() <= num_nodes,
        forall|at: int| 0 <= at < nodes@.len() ==> #[trigger] nodes@[at] < lists@.len(),
        forall|at: int|
            0 <= at < nodes@.len() ==> start_nodes@.contains(#[trigger] nodes@[at]) || exists|
                by: int,
            |
                0 <= by < at && (#[trigger] lists@[nodes@[by] as int])@.contains(nodes@[at]),
        nodes@.len() < num_nodes ==> forall|at: int|
            0 <= at < start_nodes@.len() ==> nodes@.contains(#[trigger] start_nodes@[at]),
        nodes@.len() < num_nodes ==> forall|by: int, at: int|
            #![trigger lists@[nodes@[by] as int]@[at]]
            0 <= by < nodes@.len() && 0 <= at < lists@[nodes@[by] as int]@.len()
                ==> nodes@.contains(lists@[nodes@[by] as int]@[at]),
        forall|done: int, at: int|
            #![trigger nodes@[done], start_nodes@[at]]
            0 <= done < nodes@.len() && 0 <= at < start_nodes@.len() && !nodes@.take(
                done + 1,
            ).contains(start_nodes@[at]) ==> start_nodes@.take(at).contains(nodes@[done]),
        forall|done: int, by: int, at: int|
            #![trigger nodes@[done], lists@[nodes@[by] as int]@[at]]
            0 <= done < nodes@.len() && 0 <= by < nodes@.len() && 0 <= at
                < lists@[nodes@[by] as int]@.len() && !nodes@.take(done + 1).contains(
                lists@[nodes@[by] as int]@[at],
            ) ==> {
                ||| start_nodes@.contains(nodes@[done])
                ||| exists|earlier: int|
                    0 <= earlier < by && (#[trigger] lists@[nodes@[earlier] as int])@.contains(
                        nodes@[done],
                    )
                ||| lists@[nodes@[by] as int]@.take(at).contains(nodes@[done])
            },
{
    let ghost adjacency = |node: u32| list_of(lists@, node);
    let ghost limit = num_nodes as int;
    let ghost total = start_state(start_nodes@).run(adjacency, limit);
    let ghost bound = lists@.len() as int;
    let mut walk = BfsWalk::start(start_nodes, num_nodes);
    proof {
        lemma_enqueue_bound(
            WalkState { known: Set::empty(), waiting: Seq::empty(), visited: Seq::empty() },
            start_nodes@,
            bound,
        );
    }
    loop
        invariant
            walk.wf(),
            walk.pending().len() == 0 || walk@.visited.len() >= limit,
            walk.spec_limit() == limit,
            limit == num_nodes,
            adjacency == |node: u32| list_of(lists@, node),
            bound == lists@.len(),
            walk@.run(adjacency, limit) == total,
            total == start_state(start_nodes@).run(adjacency, limit),
            forall|at: int| 0 <= at < walk@.visited.len() ==> #[trigger] walk@.visited[at] < bound,
            forall|at: int| 0 <= at < walk@.waiting.len() ==> #[trigger] walk@.waiting[at] < bound,
            forall|node: int, at: int|
                #![trigger lists@[node]@[at]]
                0 <= node < lists@.len() && 0 <= at < lists@[node]@.len() ==> lists@[node]@[at]
                    < lists@.len(),
        decreases (if walk@.visited.len() < limit { limit - walk@.visited.len() } else { 0 }),
    {
        if walk.next_batch().is_none() {
            let nodes = walk.into_nodes();
            proof {
                lemma_walk_over_lists(lists@, start_nodes@, nodes@, limit);
            }
            return nodes;
        }
        let ghost first_visited = walk@.visited.len();
        let mut more: bool = true;
        while more
            invariant
                walk.wf(),
                more ==> walk.pending().len() > 0 && walk@.visited.len() < limit,
                !more ==> walk.pending().len() == 0 || walk@.visited.len() >= limit,
                more || walk@.visited.len() > first_visited,
                walk@.visited.len() >= first_visited,
                walk.spec_limit() == limit,
                adjacency == |node: u32| list_of(lists@, node),
                bound == lists@.len(),
                walk@.run(adjacency, limit) == total,
                forall|at: int|
                    0 <= at < walk@.visited.len() ==> #[trigger] walk@.visited[at] < bound,
                forall|at: int|
                    0 <= at < walk@.waiting.len() ==> #[trigger] walk@.waiting[at] < bound,
                forall|node: int, at: int|
                    #![trigger lists@[node]@[at]]
                    0 <= node < lists@.len() && 0 <= at < lists@[node]@.len()
                        ==> lists@[node]@[at] < lists@.len(),
            decreases limit - walk@.visited.len(),
        {
            let ghost before = walk@;
            proof {
                walk.lemma_pending_waits();
            }
            let node: u32 = walk.next_node();
            let list: &Vec<u32> = &lists[node as usize];
            more = walk.visit(list.as_slice());
            proof {
                assert(list@ == adjacency(node));
                assert(before.run(adjacency, limit) == before.visit(adjacency(node)).run(
                    adjacency,
                    limit,
                ));
                let popped = WalkState {
                    known: before.known,
                    waiting: before.waiting.skip(1),
                    visited: before.visited.push(before.waiting[0]),
                };
                assert forall|at: int| 0 <= at < list@.len() implies #[trigger] list@[at]
                    < bound by {
                    assert(lists@[node as int]@[at] < lists@.len());
                }
                assert forall|at: int| 0 <= at < popped.waiting.len() implies #[trigger] popped.waiting[at]
                    < bound by {
                    assert(popped.waiting[at] == before.waiting[at + 1]);
                }
                lemma_enqueue_bound(popped, list@, bound);
                before.lemma_visit(list@);
            }
        }
    }
}

/// What is said of a walk over adjacency lists is said of the lists themselves.
proof fn lemma_walk_over_lists(
    lists: Seq<Vec<u32>>,
    start_nodes: Seq<u32>,
    nodes: Seq<u32>,
    limit: int,
)
    requires
        0 <= limit,
        forall|at: int| 0 <= at < nodes.len() ==> #[trigger] nodes[at] < lists.len(),
        nodes == start_state(start_nodes).run(|node: u32| list_of(lists, node), limit).visited,
    ensures
        nodes.no_duplicates(),
        nodes.len() <= limit,
        forall|at: int|
            0 <= at < nodes.len() ==> start_nodes.contains(#[trigger] nodes[at]) || exists|by: int|
                0 <= by < at && (#[trigger] lists[nodes[by] as int])@.contains(nodes[at]),
        nodes.len() < limit ==> forall|at: int|
            0 <= at < start_nodes.len() ==> nodes.contains(#[trigger] start_nodes[at]),
        nodes.len() < limit ==> forall|by: int, at: int|
            #![trigger lists[nodes[by] as int]@[at]]
            0 <= by < nodes.len() && 0 <= at < lists[nodes[by] as int]@.len() ==> nodes.contains(
                lists[nodes[by] as int]@[at],
            ),
        forall|done: int, at: int|
            #![trigger nodes[done], start_nodes[at]]
            0 <= done < nodes.len() && 0 <= at < start_nodes.len() && !nodes.take(
                done + 1,
            ).contains(start_nodes[at]) ==> start_nodes.take(at).contains(nodes[done]),
        forall|done: int, by: int, at: int|
            #![trigger nodes[done], lists[nodes[by] as int]@[at]]
            0 <= done < nodes.len() && 0 <= by < nodes.len() && 0 <= at
                < lists[nodes[by] as int]@.len() && !nodes.take(done + 1).contains(
                lists[nodes[by] as int]@[at],
            ) ==> {
                ||| start_nodes.contains(nodes[done])
                ||| exists|earlier: int|
                    0 <= earlier < by && (#[trigger] lists[nodes[earlier] as int])@.contains(
                        nodes[done],
                    )
                ||| lists[nodes[by] as int]@.take(at).contains(nodes[done])
            },
{
    let adjacency = |node: u32| list_of(lists, node);
    lemma_walk_is_breadth_first(start_nodes, adjacency, limit);
    assert forall|at: int| 0 <= at < nodes.len() implies adjacency(#[trigger] nodes[at])
        == lists[nodes[at] as int]@ by {}
    assert forall|at: int| 0 <= at < nodes.len() implies start_nodes.contains(#[trigger] nodes[at])
        || exists|by: int|
        0 <= by < at && (#[trigger] lists[nodes[by] as int])@.contains(nodes[at]) by {
        if !start_nodes.contains(nodes[at]) {
            let by = choose|by: int|
                0 <= by < at && #[trigger] adjacency(nodes[by]).contains(nodes[at]);
            assert(lists[nodes[by] as int]@.contains(nodes[at]));
        }
    }
    if nodes.len() < limit {
        assert forall|by: int, at: int|
            #![trigger lists[nodes[by] as int]@[at]]
            0 <= by < nodes.len() && 0 <= at < lists[nodes[by] as int]@.len() implies nodes.contains(
            lists[nodes[by] as int]@[at],
        ) by {
            assert(nodes.contains(adjacency(nodes[by])[at]));
        }
    }
    assert forall|done: int, by: int, at: int|
        #![trigger nodes[done], lists[nodes[by] as int]@[at]]
        0 <= done < nodes.len() && 0 <= by < nodes.len() && 0 <= at
            < lists[nodes[by] as int]@.len() && !nodes.take(done + 1).contains(
            lists[nodes[by] as int]@[at],
        ) implies {
        ||| start_nodes.contains(nodes[done])
        ||| exists|earlier: int|
            0 <= earlier < by && (#[trigger] lists[nodes[earlier] as int])@.contains(nodes[done])
        ||| lists[nodes[by] as int]@.take(at).contains(nodes[done])
    } by {
        assert(adjacency(nodes[by])[at] == lists[nodes[by] as int]@[at]);
        if !start_nodes.contains(nodes[done]) && !lists[nodes[by] as int]@.take(at).contains(
            nodes[done],
        ) {
            let earlier = choose|earlier: int|
                0 <= earlier < by && #[trigger] adjacency(nodes[earlier]).contains(nodes[done]);
            assert(lists[nodes[earlier] as int]@.contains(nodes[done]));
        }
    }
}

impl BfsWalk {
    /// The nodes of the batch that are left are the first that wait.
    pub proof fn lemma_pending_waits(&self)
        requires
            self.wf(),
        ensures
            self.pending().len() <= self@.waiting.len(),
            self.pending() == self@.waiting.take(self.pending().len() as int),
    {
        assert(self.pending() =~= self@.waiting.take(self.pending().len() as int));
    }
}

impl WalkState {
    /// The nodes the walk has come across, in the order in which it visits them.
    pub open spec fn order(self) -> Seq<u32> {
        self.visited + self.waiting
    }

    /// The nodes the walk has come across are those visited and those waiting,
    /// each once.
    pub open spec fn wf(self) -> bool {
        &&& self.order().no_duplicates()
        &&& forall|node: u32| #[trigger] self.known.contains(node) <==> self.order().contains(node)
    }

    /// Coming across nodes extends the order and keeps it distinct.
    pub proof fn lemma_enqueue_extends(self, list: Seq<u32>)
        requires
            self.wf(),
        ensures
            self.enqueue(list).wf(),
            self.order().len() <= self.enqueue(list).order().len(),
            self.enqueue(list).order().take(self.order().len() as int) == self.order(),
            forall|node: u32| #[trigger]
                self.enqueue(list).order().contains(node) <==> self.order().contains(node)
                    || list.contains(node),
        decreases list.len(),
    {
        if list.len() > 0 {
            let front = list.drop_last();
            let last = list.last();
            self.lemma_enqueue_extends(front);
            let before = self.enqueue(front);
            let after = self.enqueue(list);
            if !before.known.contains(last) {
                assert(after.order() =~= before.order().push(last));
                assert(!before.order().contains(last));
                assert forall|node: u32| #[trigger]
                    after.known.contains(node) <==> after.order().contains(node) by {
                    lemma_push_contains(before.order(), last, node);
                }
            }
            assert(after.order().take(self.order().len() as int) =~= self.order());
            assert forall|node: u32| #[trigger]
                after.order().contains(node) <==> self.order().contains(node) || list.contains(
                    node,
                ) by {
                assert(list =~= front.push(last));
                lemma_push_contains(front, last, node);
                lemma_push_contains(before.order(), last, node);
                assert(before.order().contains(node) <==> self.order().contains(node)
                    || front.contains(node));
                assert(before.known.contains(last) <==> before.order().contains(last));
            }
        } else {
            assert(self.order().take(self.order().len() as int) =~= self.order());
        }
    }

    /// Walking on keeps the order as far as it goes, and ends when the walk is over.
    pub proof fn lemma_run_extends(self, lists: spec_fn(u32) -> Seq<u32>, limit: int)
        requires
            self.wf(),
            self.visited.len() <= limit,
        ensures
            ({
                let end = self.run(lists, limit);
                &&& end.wf()
                &&& end.is_over(limit)
                &&& end.visited.len() <= limit
                &&& self.order().len() <= end.order().len()
                &&& end.order().take(self.order().len() as int) == self.order()
            }),
        decreases limit - self.visited.len(),
    {
        if self.is_over(limit) {
            assert(self.order().take(self.order().len() as int) =~= self.order());
        } else {
            let list = lists(self.waiting[0]);
            let popped = WalkState {
                known: self.known,
                waiting: self.waiting.skip(1),
                visited: self.visited.push(self.waiting[0]),
            };
            assert(popped.order() =~= self.order());
            popped.lemma_enqueue_extends(list);
            self.lemma_visit(list);
            let next = self.visit(list);
            next.lemma_run_extends(lists, limit);
            let end = next.run(lists, limit);
            assert(end.order().take(self.order().len() as int) =~= end.order().take(
                next.order().len() as int,
            ).take(self.order().len() as int));
        }
    }
}

/// A sequence with one more node holds that node and those it held before.
proof fn lemma_push_contains(nodes: Seq<u32>, last: u32, node: u32)
    ensures
        nodes.push(last).contains(node) <==> nodes.contains(node) || node == last,
{
    let grown = nodes.push(last);
    if nodes.contains(node) {
        let at = choose|at: int| 0 <= at < nodes.len() && nodes[at] == node;
        assert(grown[at] == node);
    }
    if node == last {
        assert(grown[nodes.len() as int] == node);
    }
    if grown.contains(node) && node != last {
        let at = choose|at: int| 0 <= at < grown.len() && grown[at] == node;
        assert(nodes[at] == node);
    }
}

/// A walk visits distinct nodes, and the different start nodes first: all of them
/// if the limit allows.
pub proof fn lemma_walk_visits_roots_first(
    start_nodes: Seq<u32>,
    lists: spec_fn(u32) -> Seq<u32>,
    limit: int,
)
    requires
        0 <= limit,
    ensures
        ({
            let roots = start_state(start_nodes).waiting;
            let nodes = start_state(start_nodes).run(lists, limit).visited;
            &&& roots.no_duplicates()
            &&& roots.to_set() == start_nodes.to_set()
            &&& nodes.no_duplicates()
            &&& nodes.len() <= limit
            &&& roots.len() <= limit ==> roots.len() <= nodes.len() && nodes.take(
                roots.len() as int,
            ) == roots
        }),
{
    let empty = WalkState { known: Set::empty(), waiting: Seq::empty(), visited: Seq::empty() };
    let start = start_state(start_nodes);
    let end = start.run(lists, limit);
    assert(empty.order() =~= Seq::<u32>::empty());
    assert(empty.wf());
    empty.lemma_enqueue_extends(start_nodes);
    lemma_enqueue_keeps_visited(empty, start_nodes);
    assert(start.order() =~= start.waiting);
    assert(start.waiting.to_set() =~= start_nodes.to_set()) by {
        assert forall|node: u32| start.waiting.contains(node) <==> start_nodes.contains(node) by {
            assert(start.order().contains(node) <==> empty.order().contains(node)
                || start_nodes.contains(node));
        }
    }
    start.lemma_run_extends(lists, limit);
    assert forall|i: int, j: int| 0 <= i < j < end.visited.len() implies end.visited[i]
        != end.visited[j] by {
        assert(end.order()[i] != end.order()[j]);
    }
    if start.waiting.len() <= limit {
        assert(end.visited.len() >= start.waiting.len());
        assert(end.visited.take(start.waiting.len() as int) =~= end.order().take(
            start.order().len() as int,
        ));
    }
}

impl WalkState {
    /// What visiting a node does: the node moves from the waiting ones to those visited,
    /// every neighbor is come across, however many there are, and the neighbors that were
    /// not come across before wait behind the others, each once, in the order of the list.
    pub proof fn lemma_visit_comes_across_neighbors(self, list: Seq<u32>)
        requires
            self.waiting.len() > 0,
        ensures
            ({
                let after = self.visit(list);
                let left = self.waiting.len() - 1;
                &&& after.visited == self.visited.push(self.waiting[0])
                &&& after.known == self.known.union(list.to_set())
                &&& left <= after.waiting.len()
                &&& after.waiting.take(left) == self.waiting.skip(1)
                &&& forall|at: int|
                    left <= at < after.waiting.len() ==> list.contains(#[trigger] after.waiting[at])
                        && !self.known.contains(after.waiting[at])
                &&& forall|at: int|
                    0 <= at < list.len() && !self.known.contains(#[trigger] list[at])
                        ==> after.waiting.skip(left).contains(list[at])
                &&& forall|first: int, second: int, at: int|
                    left <= first < second < after.waiting.len() && 0 <= at < list.len()
                        && #[trigger] list[at] == #[trigger] after.waiting[second]
                        ==> list.take(at).contains(#[trigger] after.waiting[first])
            }),
    {
        let popped = WalkState {
            known: self.known,
            waiting: self.waiting.skip(1),
            visited: self.visited.push(self.waiting[0]),
        };
        popped.lemma_enqueue_comes_across(list);
    }

    /// What coming across the nodes of a list does: all of them are known then, and those
    /// that were not known before wait behind the others, each once, in the order of the
    /// list.
    pub proof fn lemma_enqueue_comes_across(self, list: Seq<u32>)
        ensures
            ({
                let after = self.enqueue(list);
                let left = self.waiting.len() as int;
                &&& after.visited == self.visited
                &&& after.known == self.known.union(list.to_set())
                &&& left <= after.waiting.len()
                &&& after.waiting.take(left) == self.waiting
                &&& forall|at: int|
                    left <= at < after.waiting.len() ==> list.contains(#[trigger] after.waiting[at])
                        && !self.known.contains(after.waiting[at])
                &&& forall|at: int|
                    0 <= at < list.len() && !self.known.contains(#[trigger] list[at])
                        ==> after.waiting.skip(left).contains(list[at])
                &&& forall|first: int, second: int, at: int|
                    left <= first < second < after.waiting.len() && 0 <= at < list.len()
                        && #[trigger] list[at] == #[trigger] after.waiting[second]
                        ==> list.take(at).contains(#[trigger] after.waiting[first])
            }),
        decreases list.len(),
    {
        let after = self.enqueue(list);
        let left = self.waiting.len() as int;
        if list.len() == 0 {
            assert(after.known =~= self.known.union(list.to_set()));
            assert(after.waiting.take(left) =~= self.waiting);
        } else {
            let front = list.drop_last();
            let last = list.last();
            let before = self.enqueue(front);
            self.lemma_enqueue_comes_across(front);
            assert(list =~= front.push(last));
            assert forall|node: u32| list.contains(node) <==> front.contains(node) || node
                == last by {
                lemma_push_contains(front, last, node);
            }
            assert(after.known =~= self.known.union(list.to_set()));
            assert(after.waiting.take(left) =~= before.waiting.take(left));
            let fresh = !before.known.contains(last);
            if fresh {
                assert(after.waiting =~= before.waiting.push(last));
                assert(after.waiting.skip(left) =~= before.waiting.skip(left).push(last));
            }
            assert forall|at: int| 0 <= at < list.len() && !self.known.contains(
                #[trigger] list[at],
            ) implies after.waiting.skip(left).contains(list[at]) by {
                if at < front.len() {
                    assert(front[at] == list[at]);
                    lemma_push_contains(before.waiting.skip(left), last, list[at]);
                } else if fresh {
                    lemma_push_contains(before.waiting.skip(left), last, last);
                } else {
                    assert(front.contains(last));
                    let place = choose|place: int| 0 <= place < front.len() && front[place] == last;
                    assert(!self.known.contains(front[place]));
                }
            }
            assert forall|at: int| left <= at < after.waiting.len() implies list.contains(
                #[trigger] after.waiting[at],
            ) && !self.known.contains(after.waiting[at]) by {
                if at < before.waiting.len() {
                    assert(before.waiting[at] == after.waiting[at]);
                }
            }
            assert forall|first: int, second: int, at: int|
                left <= first < second < after.waiting.len() && 0 <= at < list.len()
                    && #[trigger] list[at] == #[trigger] after.waiting[second] implies list.take(
                at,
            ).contains(#[trigger] after.waiting[first]) by {
                assert(before.waiting[first] == after.waiting[first]);
                if second < before.waiting.len() {
                    assert(before.waiting[second] == after.waiting[second]);
                    if at < front.len() {
                        assert(front[at] == list[at]);
                        assert(front.take(at) =~= list.take(at));
                    } else {
                        assert(list.take(at) =~= front);
                    }
                } else {
                    assert(after.waiting[second] == last);
                    assert(!before.known.contains(last));
                    if at < front.len() {
                        assert(front[at] == last);
                        assert(front.to_set().contains(last));
                        assert(false);
                    }
                    assert(list.take(at) =~= front);
                }
            }
        }
    }
}

/// How the order of a walk comes about: it starts from the start nodes and goes on with the
/// neighbors of the visited nodes, nothing is left out, and nodes stand in the order in
/// which they are first met.
spec fn is_met_in_order(
    start_nodes: Seq<u32>,
    lists: spec_fn(u32) -> Seq<u32>,
    state: WalkState,
) -> bool {
    let order = state.order();
    let visited = state.visited;
    &&& state.wf()
    &&& forall|at: int|
        0 <= at < order.len() ==> is_met_from(start_nodes, lists, visited, at, #[trigger] order[at])
    &&& forall|at: int| 0 <= at < start_nodes.len() ==> order.contains(#[trigger] start_nodes[at])
    &&& forall|by: int, at: int|
        #![trigger lists(visited[by])[at]]
        0 <= by < visited.len() && 0 <= at < lists(visited[by]).len() ==> order.contains(
            lists(visited[by])[at],
        )
    &&& forall|first: int, second: int, at: int|
        #![trigger order[first], order[second], start_nodes[at]]
        0 <= first < second < order.len() && 0 <= at < start_nodes.len() && start_nodes[at]
            == order[second] ==> start_nodes.take(at).contains(order[first])
    &&& forall|first: int, second: int, by: int, at: int|
        #![trigger order[first], order[second], lists(visited[by])[at]]
        0 <= first < second < order.len() && 0 <= by < visited.len() && 0 <= at < lists(
            visited[by],
        ).len() && lists(visited[by])[at] == order[second] ==> is_met_from(
            start_nodes,
            lists,
            visited,
            by,
            order[first],
        ) || lists(visited[by]).take(at).contains(order[first])
}

/// `node` is a start node or a neighbor of one of the first `count` visited nodes.
spec fn is_met_from(
    start_nodes: Seq<u32>,
    lists: spec_fn(u32) -> Seq<u32>,
    visited: Seq<u32>,
    count: int,
    node: u32,
) -> bool {
    start_nodes.contains(node) || exists|by: int|
        0 <= by < count && by < visited.len() && #[trigger] lists(visited[by]).contains(node)
}

/// Visiting the next node keeps how the order comes about.
#[verifier::rlimit(60)]
#[verifier::spinoff_prover]
proof fn lemma_visit_keeps_order(
    start_nodes: Seq<u32>,
    lists: spec_fn(u32) -> Seq<u32>,
    state: WalkState,
)
    requires
        is_met_in_order(start_nodes, lists, state),
        state.waiting.len() > 0,
    ensures
        is_met_in_order(start_nodes, lists, state.visit(lists(state.waiting[0]))),
{
    let node = state.waiting[0];
    let list = lists(node);
    let after = state.visit(list);
    let old_order = state.order();
    let order = after.order();
    let visited = after.visited;
    let count = state.visited.len() as int;
    let left = state.waiting.len() - 1;
    let popped = WalkState {
        known: state.known,
        waiting: state.waiting.skip(1),
        visited: state.visited.push(node),
    };
    assert(popped.order() =~= old_order);
    popped.lemma_enqueue_extends(list);
    state.lemma_visit_comes_across_neighbors(list);
    assert(order.take(old_order.len() as int) == old_order);
    assert forall|at: int| 0 <= at < old_order.len() implies #[trigger] order[at]
        == old_order[at] by {
        assert(order.take(old_order.len() as int)[at] == order[at]);
    }
    assert forall|at: int| old_order.len() <= at < order.len() implies list.contains(
        #[trigger] order[at],
    ) && !old_order.contains(order[at]) by {
        assert(order[at] == after.waiting[at - count - 1]);
        assert(!state.known.contains(after.waiting[at - count - 1]));
    }
    assert(visited =~= state.visited.push(node));
    assert(visited.take(count) =~= state.visited);
    assert forall|at: int| 0 <= at < order.len() implies is_met_from(
        start_nodes,
        lists,
        visited,
        at,
        #[trigger] order[at],
    ) by {
        if at < old_order.len() {
            assert(is_met_from(start_nodes, lists, state.visited, at, old_order[at]));
            if !start_nodes.contains(order[at]) {
                let by = choose|by: int|
                    0 <= by < at && by < state.visited.len() && #[trigger] lists(
                        state.visited[by],
                    ).contains(old_order[at]);
                assert(lists(visited[by]).contains(order[at]));
            }
        } else {
            assert(lists(visited[count]).contains(order[at]));
        }
    }
    assert forall|at: int| 0 <= at < start_nodes.len() implies order.contains(
        #[trigger] start_nodes[at],
    ) by {
        assert(old_order.contains(start_nodes[at]));
    }
    assert forall|by: int, at: int|
        #![trigger lists(visited[by])[at]]
        0 <= by < visited.len() && 0 <= at < lists(visited[by]).len() implies order.contains(
        lists(visited[by])[at],
    ) by {
        if by < count {
            assert(old_order.contains(lists(state.visited[by])[at]));
        } else {
            assert(list.contains(list[at]));
        }
    }
    assert forall|first: int, second: int, at: int|
        #![trigger order[first], order[second], start_nodes[at]]
        0 <= first < second < order.len() && 0 <= at < start_nodes.len() && start_nodes[at]
            == order[second] implies start_nodes.take(at).contains(order[first]) by {
        if second < old_order.len() {
            assert(old_order[second] == start_nodes[at]);
            assert(old_order[first] == order[first]);
        } else {
            assert(old_order.contains(start_nodes[at]));
        }
    }
    assert forall|first: int, second: int, by: int, at: int|
        #![trigger order[first], order[second], lists(visited[by])[at]]
        0 <= first < second < order.len() && 0 <= by < visited.len() && 0 <= at < lists(
            visited[by],
        ).len() && lists(visited[by])[at] == order[second] implies is_met_from(
        start_nodes,
        lists,
        visited,
        by,
        order[first],
    ) || lists(visited[by]).take(at).contains(order[first]) by {
        if by < count {
            assert(old_order.contains(lists(state.visited[by])[at]));
            assert(second < old_order.len());
            assert(old_order[second] == lists(state.visited[by])[at]);
            assert(old_order[first] == order[first]);
            lemma_met_stays(start_nodes, lists, state.visited, visited, by, order[first]);
        } else if first < old_order.len() {
            assert(is_met_from(start_nodes, lists, visited, first, order[first]));
            if !start_nodes.contains(order[first]) {
                assert(is_met_from(start_nodes, lists, state.visited, first, old_order[first]));
                let met = choose|met: int|
                    0 <= met < first && met < state.visited.len() && #[trigger] lists(
                        state.visited[met],
                    ).contains(old_order[first]);
                assert(lists(visited[met]).contains(order[first]));
            }
        } else {
            assert(order[first] == after.waiting[first - count - 1]);
            assert(order[second] == after.waiting[second - count - 1]);
            assert(list[at] == after.waiting[second - count - 1]);
            assert(list.take(at).contains(after.waiting[first - count - 1]));
        }
    }
}

/// What is met from some visited nodes is met from them however many follow.
proof fn lemma_met_stays(
    start_nodes: Seq<u32>,
    lists: spec_fn(u32) -> Seq<u32>,
    visited: Seq<u32>,
    longer: Seq<u32>,
    count: int,
    node: u32,
)
    requires
        visited.len() <= longer.len(),
        longer.take(visited.len() as int) == visited,
    ensures
        is_met_from(start_nodes, lists, visited, count, node) ==> is_met_from(
            start_nodes,
            lists,
            longer,
            count,
            node,
        ),
{
    if is_met_from(start_nodes, lists, visited, count, node) && !start_nodes.contains(node) {
        let by = choose|by: int|
            0 <= by < count && by < visited.len() && #[trigger] lists(visited[by]).contains(node);
        assert(longer.take(visited.len() as int)[by] == longer[by]);
        assert(lists(longer[by]).contains(node));
    }
}

/// A walk that goes on keeps how the order comes about.
proof fn lemma_run_keeps_order(
    start_nodes: Seq<u32>,
    lists: spec_fn(u32) -> Seq<u32>,
    state: WalkState,
    limit: int,
)
    requires
        is_met_in_order(start_nodes, lists, state),
    ensures
        is_met_in_order(start_nodes, lists, state.run(lists, limit)),
    decreases limit - state.visited.len(),
{
    if !state.is_over(limit) {
        lemma_visit_keeps_order(start_nodes, lists, state);
        state.lemma_visit(lists(state.waiting[0]));
        lemma_run_keeps_order(start_nodes, lists, state.visit(lists(state.waiting[0])), limit);
    }
}

/// The order of a walk that has not begun is that of the start nodes.
proof fn lemma_start_order(start_nodes: Seq<u32>, lists: spec_fn(u32) -> Seq<u32>)
    ensures
        is_met_in_order(start_nodes, lists, start_state(start_nodes)),
{
    let empty = WalkState { known: Set::empty(), waiting: Seq::empty(), visited: Seq::empty() };
    let start = start_state(start_nodes);
    assert(empty.order() =~= Seq::<u32>::empty());
    empty.lemma_enqueue_extends(start_nodes);
    empty.lemma_enqueue_comes_across(start_nodes);
    assert(start.order() =~= start.waiting);
    assert(start.waiting.skip(0) =~= start.waiting);
    assert forall|at: int| 0 <= at < start.order().len() implies is_met_from(
        start_nodes,
        lists,
        start.visited,
        at,
        #[trigger] start.order()[at],
    ) by {
        assert(start_nodes.contains(start.waiting[at]));
    }
    assert forall|at: int| 0 <= at < start_nodes.len() implies start.order().contains(
        #[trigger] start_nodes[at],
    ) by {
        assert(start.waiting.skip(0).contains(start_nodes[at]));
    }
    assert forall|first: int, second: int, at: int|
        #![trigger start.order()[first], start.order()[second], start_nodes[at]]
        0 <= first < second < start.order().len() && 0 <= at < start_nodes.len()
            && start_nodes[at] == start.order()[second] implies start_nodes.take(at).contains(
        start.order()[first],
    ) by {
        assert(start_nodes[at] == start.waiting[second]);
        assert(start_nodes.take(at).contains(start.waiting[first]));
    }
}

/// A walk is a breadth-first search. It visits no node twice and no more nodes than its
/// limit. Every node it visits is a start node or a neighbor of a node visited before. If it
/// ends before its limit, it has visited every start node and every neighbor of every node
/// visited. And it visits nodes in the order in which they are met: wherever a node is met
/// that has not been visited by then, the nodes visited by then were met before it, among
/// the start nodes, as neighbors of nodes visited earlier or earlier in the same list.
pub proof fn lemma_walk_is_breadth_first(
    start_nodes: Seq<u32>,
    lists: spec_fn(u32) -> Seq<u32>,
    limit: int,
)
    requires
        0 <= limit,
    ensures
        ({
            let nodes = start_state(start_nodes).run(lists, limit).visited;
            &&& nodes.no_duplicates()
            &&& nodes.len() <= limit
            &&& forall|at: int|
                0 <= at < nodes.len() ==> start_nodes.contains(#[trigger] nodes[at]) || exists|
                    by: int,
                |
                    0 <= by < at && #[trigger] lists(nodes[by]).contains(nodes[at])
            &&& nodes.len() < limit ==> {
                &&& forall|at: int|
                    0 <= at < start_nodes.len() ==> nodes.contains(#[trigger] start_nodes[at])
                &&& forall|by: int, at: int|
                    #![trigger lists(nodes[by])[at]]
                    0 <= by < nodes.len() && 0 <= at < lists(nodes[by]).len() ==> nodes.contains(
                        lists(nodes[by])[at],
                    )
            }
            &&& forall|done: int, at: int|
                #![trigger nodes[done], start_nodes[at]]
                0 <= done < nodes.len() && 0 <= at < start_nodes.len() && !nodes.take(
                    done + 1,
                ).contains(start_nodes[at]) ==> start_nodes.take(at).contains(nodes[done])
            &&& forall|done: int, by: int, at: int|
                #![trigger nodes[done], lists(nodes[by])[at]]
                0 <= done < nodes.len() && 0 <= by < nodes.len() && 0 <= at < lists(
                    nodes[by],
                ).len() && !nodes.take(done + 1).contains(lists(nodes[by])[at]) ==> {
                    ||| start_nodes.contains(nodes[done])
                    ||| exists|earlier: int|
                        0 <= earlier < by && #[trigger] lists(nodes[earlier]).contains(nodes[done])
                    ||| lists(nodes[by]).take(at).contains(nodes[done])
                }
        }),
{
    let start = start_state(start_nodes);
    let end = start.run(lists, limit);
    let nodes = end.visited;
    let order = end.order();
    lemma_start_order(start_nodes, lists);
    lemma_run_keeps_order(start_nodes, lists, start, limit);
    let empty = WalkState { known: Set::empty(), waiting: Seq::empty(), visited: Seq::empty() };
    lemma_enqueue_keeps_visited(empty, start_nodes);
    start.lemma_run_extends(lists, limit);
    assert forall|at: int| 0 <= at < nodes.len() implies #[trigger] nodes[at] == order[at] by {}
    assert forall|i: int, j: int| 0 <= i < j < nodes.len() implies nodes[i] != nodes[j] by {
        assert(order[i] != order[j]);
    }
    assert forall|at: int| 0 <= at < nodes.len() implies start_nodes.contains(#[trigger] nodes[at])
        || exists|by: int| 0 <= by < at && #[trigger] lists(nodes[by]).contains(nodes[at]) by {
        assert(is_met_from(start_nodes, lists, nodes, at, order[at]));
    }
    if nodes.len() < limit {
        assert(end.waiting.len() == 0);
        assert(order =~= nodes);
    }
    assert forall|done: int, at: int|
        #![trigger nodes[done], start_nodes[at]]
        0 <= done < nodes.len() && 0 <= at < start_nodes.len() && !nodes.take(done + 1).contains(
            start_nodes[at],
        ) implies start_nodes.take(at).contains(nodes[done]) by {
        assert(order.contains(start_nodes[at]));
        let second = choose|second: int|
            0 <= second < order.len() && order[second] == start_nodes[at];
        if second <= done {
            assert(nodes.take(done + 1)[second] == start_nodes[at]);
        }
        assert(start_nodes.take(at).contains(order[done]));
    }
    assert forall|done: int, by: int, at: int|
        #![trigger nodes[done], lists(nodes[by])[at]]
        0 <= done < nodes.len() && 0 <= by < nodes.len() && 0 <= at < lists(nodes[by]).len()
            && !nodes.take(done + 1).contains(lists(nodes[by])[at]) implies {
        ||| start_nodes.contains(nodes[done])
        ||| exists|earlier: int|
            0 <= earlier < by && #[trigger] lists(nodes[earlier]).contains(nodes[done])
        ||| lists(nodes[by]).take(at).contains(nodes[done])
    } by {
        assert(order.contains(lists(nodes[by])[at]));
        let second = choose|second: int|
            0 <= second < order.len() && order[second] == lists(nodes[by])[at];
        if second <= done {
            assert(nodes.take(done + 1)[second] == lists(nodes[by])[at]);
        }
        assert(order[done] == nodes[done]);
    }
}

/// A walk with a smaller limit visits the first nodes of the walk with a larger one, and
/// stops short of its limit only where the other ends too.
pub proof fn lemma_shorter_walk_is_prefix(
    start_nodes: Seq<u32>,
    lists: spec_fn(u32) -> Seq<u32>,
    limit: int,
    larger: int,
)
    requires
        0 <= limit <= larger,
    ensures
        ({
            let nodes = start_state(start_nodes).run(lists, limit).visited;
            let more = start_state(start_nodes).run(lists, larger).visited;
            &&& nodes.len() <= more.len()
            &&& nodes == more.take(nodes.len() as int)
            &&& nodes.len() < limit ==> nodes == more
        }),
{
    let empty = WalkState { known: Set::empty(), waiting: Seq::empty(), visited: Seq::empty() };
    lemma_enqueue_keeps_visited(empty, start_nodes);
    lemma_run_prefix(start_state(start_nodes), lists, limit, larger);
}

/// A state that is walked on from to a smaller limit visits a prefix.
proof fn lemma_run_prefix(
    state: WalkState,
    lists: spec_fn(u32) -> Seq<u32>,
    limit: int,
    larger: int,
)
    requires
        state.visited.len() <= limit <= larger,
    ensures
        ({
            let nodes = state.run(lists, limit).visited;
            let more = state.run(lists, larger).visited;
            &&& state.visited.len() <= nodes.len() <= more.len()
            &&& nodes == more.take(nodes.len() as int)
            &&& nodes.len() < limit ==> nodes == more
            &&& more.take(state.visited.len() as int) == state.visited
        }),
    decreases larger - state.visited.len(),
{
    if state.waiting.len() == 0 || state.visited.len() >= larger {
        assert(state.visited.take(state.visited.len() as int) =~= state.visited);
    } else {
        let list = lists(state.waiting[0]);
        let next = state.visit(list);
        state.lemma_visit(list);
        let more = state.run(lists, larger).visited;
        if state.visited.len() < limit {
            lemma_run_prefix(next, lists, limit, larger);
        } else {
            lemma_run_prefix(next, lists, larger, larger);
        }
        assert(more.take(next.visited.len() as int) == next.visited);
        assert(more.take(state.visited.len() as int) =~= next.visited.take(
            state.visited.len() as int,
        ));
        assert(next.visited.take(state.visited.len() as int) =~= state.visited);
    }
}

/// The neighbors that were written behind a vector, their number first, are those that the
/// record lists, whatever follows them.
pub proof fn lemma_written_neighbors_are_listed(vector: Seq<u8>, list: Seq<u32>, rest: Seq<u8>)
    requires
        list.len() <= u32::MAX,
    ensures
        listed_neighbors(
            vector + bytes::le_bytes(list.len(), 4) + bytes::u32s_bytes(list) + rest,
            vector.len() as int,
        ) == Some(list),
{
    let count = bytes::le_bytes(list.len(), 4);
    let words = bytes::u32s_bytes(list);
    let record = vector + count + words + rest;
    let start = vector.len() as int;
    bytes::lemma_le_bytes_len(list.len(), 4);
    bytes::lemma_u32s_bytes(list);
    assert(record.subrange(start, start + 4) =~= count);
    bytes::lemma_u32_at_written(record, start, list.len() as u32);
    let listed = listed_neighbors(record, start);
    assert forall|at: int| 0 <= at < list.len() implies listed->0[at] == #[trigger] list[at] by {
        let offset = start + 4 + 4 * at;
        assert(record.subrange(offset, offset + 4) =~= words.subrange(4 * at, 4 * at + 4));
        bytes::lemma_u32_at_written(record, offset, list[at]);
    }
    assert(listed->0 =~= list);
}

/// A record that is cut off before its list ends lists nothing, and what it lists is as long
/// as its count says and fits in it.
pub proof fn lemma_listed_neighbors_fit(record: Seq<u8>, vector_bytes: int)
    requires
        0 <= vector_bytes,
    ensures
        listed_neighbors(record, vector_bytes) is Some ==> {
            let list = listed_neighbors(record, vector_bytes)->0;
            &&& vector_bytes + 4 + 4 * list.len() <= record.len()
            &&& record.subrange(vector_bytes, vector_bytes + 4) == bytes::le_bytes(list.len(), 4)
        },
{
    if record.len() >= vector_bytes + 4 {
        let word = record.subrange(vector_bytes, vector_bytes + 4);
        bytes::lemma_bytes_of_value(word);
        bytes::lemma_le_value_bound(word);
        bytes::lemma_byte_limits();
    }
}

} // verus!
