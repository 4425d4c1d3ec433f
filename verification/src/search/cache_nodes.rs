//! Which nodes a static cache holds.
use crate::node_set;
use crate::node_set::NodeSet;
use crate::text;
use vstd::prelude::*;

verus! {

/// Effective composition of a static hybrid node cache.
#[derive(Clone, Copy, Debug, PartialEq, Eq, Structural)]
pub struct HybridCacheComposition {
    /// BFS node target requested by the configured fraction, before preserving roots.
    pub requested_bfs_nodes: usize,
    /// Number of unique routing roots that the cache must preserve.
    pub routing_root_nodes: usize,
    /// Unique nodes selected from the initial routing-root BFS prefix.
    pub bfs_nodes: usize,
    /// Unique visit-frequency nodes added after the BFS prefix.
    pub frequency_nodes: usize,
    /// Unique nodes added from the remaining BFS order when frequency ranks underfill.
    pub fallback_bfs_nodes: usize,
    /// Total unique nodes loaded into the cache.
    pub total_nodes: usize,
    /// Estimated cached graph payload in bytes, using the on-disk node length.
    pub estimated_payload_bytes: u64,
}

/// Why a cache cannot be set up.
#[derive(Clone, Copy, Debug, PartialEq, Eq, Structural)]
pub enum CacheError {
    /// A hybrid cache requires at least one routing root.
    NoRoots,
    /// A hybrid cache budget must be positive.
    ZeroBudget,
    /// The budget exceeds the number of points.
    BudgetExceedsPoints { budget: usize, points: u64 },
    /// A routing root is no node of the graph.
    RootOutOfRange { root: u32, points: u64 },
    /// The budget is smaller than the number of unique routing roots.
    BudgetBelowUniqueRoots { budget: usize, roots: usize },
    /// A frequency-ranked node is no node of the graph.
    FrequencyNodeOutOfRange { node: u32, points: u64 },
    /// A node to cache is no node of the graph.
    CacheNodeOutOfRange { node: u32, points: u64 },
    /// The budget is smaller than the number of routing roots.
    BudgetBelowRoots { budget: usize, roots: usize },
    /// The walk gave fewer nodes than there are routing roots.
    WalkTooShort { nodes: usize, roots: usize },
    /// The nodes do not fill the budget.
    Underfilled { nodes: usize, budget: usize },
    /// The size of the cached nodes overflows.
    PayloadOverflow,
    /// Another number of nodes was loaded than was selected.
    LoadedNodes { loaded: usize, budget: usize },
    /// A static cache was asked for but never set up.
    CacheMissing,
}

impl CacheError {
    /// The text of the error.
    pub open spec fn text(self) -> Seq<char> {
        match self {
            CacheError::NoRoots => "hybrid cache requires at least one routing root"@,
            CacheError::ZeroBudget => "hybrid cache budget must be positive"@,
            CacheError::BudgetExceedsPoints { budget, points } => "cache budget "@ + text::decimal(
                budget as nat,
            ) + " exceeds graph point count "@ + text::decimal(points as nat),
            CacheError::RootOutOfRange { root, points } => "routing root "@ + text::decimal(
                root as nat,
            ) + " is outside graph range 0.."@ + text::decimal(points as nat),
            CacheError::BudgetBelowUniqueRoots { budget, roots } => "cache budget "@
                + text::decimal(budget as nat) + " cannot preserve "@ + text::decimal(roots as nat)
                + " unique routing roots"@,
            CacheError::FrequencyNodeOutOfRange { node, points } => "frequency-ranked node "@
                + text::decimal(node as nat) + " is outside graph range 0.."@ + text::decimal(
                points as nat,
            ),
            CacheError::CacheNodeOutOfRange { node, points } => "cache node ID "@ + text::decimal(
                node as nat,
            ) + " is outside graph range 0.."@ + text::decimal(points as nat),
            CacheError::BudgetBelowRoots { budget, roots } => "cache budget "@ + text::decimal(
                budget as nat,
            ) + " cannot preserve "@ + text::decimal(roots as nat) + " routing roots"@,
            CacheError::WalkTooShort { nodes, roots } => "BFS produced "@ + text::decimal(
                nodes as nat,
            ) + " nodes, fewer than "@ + text::decimal(roots as nat) + " routing roots"@,
            CacheError::Underfilled { nodes, budget } => "hybrid cache composition produced "@
                + text::decimal(nodes as nat) + " unique nodes, expected "@ + text::decimal(
                budget as nat,
            ),
            CacheError::PayloadOverflow => "hybrid cache payload size overflow"@,
            CacheError::LoadedNodes { loaded, budget } => "hybrid cache loaded "@ + text::decimal(
                loaded as nat,
            ) + " nodes, expected "@ + text::decimal(budget as nat),
            CacheError::CacheMissing =>
                "Cache must be initialised for StaticCacheWithBfsNodes caching strategy"@,
        }
    }

    /// The text of the error.
    pub fn message(&self) -> (message: String)
        ensures
            message@ == self.text(),
    {
        match *self {
            CacheError::NoRoots => "hybrid cache requires at least one routing root".to_owned(),
            CacheError::ZeroBudget => "hybrid cache budget must be positive".to_owned(),
            CacheError::BudgetExceedsPoints { budget, points } => {
                text::two_numbers("cache budget ", budget as u64, " exceeds graph point count ", points, None)
            },
            CacheError::RootOutOfRange { root, points } => {
                text::two_numbers("routing root ", root as u64, " is outside graph range 0..", points, None)
            },
            CacheError::BudgetBelowUniqueRoots { budget, roots } => text::two_numbers(
                "cache budget ",
                budget as u64,
                " cannot preserve ",
                roots as u64,
                Some(" unique routing roots"),
            ),
            CacheError::FrequencyNodeOutOfRange { node, points } => text::two_numbers(
                "frequency-ranked node ",
                node as u64,
                " is outside graph range 0..",
                points,
                None,
            ),
            CacheError::CacheNodeOutOfRange { node, points } => text::two_numbers(
                "cache node ID ",
                node as u64,
                " is outside graph range 0..",
                points,
                None,
            ),
            CacheError::BudgetBelowRoots { budget, roots } => text::two_numbers(
                "cache budget ",
                budget as u64,
                " cannot preserve ",
                roots as u64,
                Some(" routing roots"),
            ),
            CacheError::WalkTooShort { nodes, roots } => text::two_numbers(
                "BFS produced ",
                nodes as u64,
                " nodes, fewer than ",
                roots as u64,
                Some(" routing roots"),
            ),
            CacheError::Underfilled { nodes, budget } => text::two_numbers(
                "hybrid cache composition produced ",
                nodes as u64,
                " unique nodes, expected ",
                budget as u64,
                None,
            ),
            CacheError::PayloadOverflow => "hybrid cache payload size overflow".to_owned(),
            CacheError::LoadedNodes { loaded, budget } => text::two_numbers(
                "hybrid cache loaded ",
                loaded as u64,
                " nodes, expected ",
                budget as u64,
                None,
            ),
            CacheError::CacheMissing =>
                "Cache must be initialised for StaticCacheWithBfsNodes caching strategy".to_owned(),
        }
    }
}

/// `selected`, followed by those nodes of `source` that are not yet in it, as far
/// as `budget` nodes.
pub open spec fn extend_unique(selected: Seq<u32>, source: Seq<u32>, budget: int) -> Seq<u32>
    decreases source.len(),
{
    if source.len() == 0 {
        selected
    } else {
        let extended = extend_unique(selected, source.drop_last(), budget);
        if extended.len() < budget && !extended.contains(source.last()) {
            extended.push(source.last())
        } else {
            extended
        }
    }
}

/// Nothing is added once the budget is used up.
pub proof fn lemma_full(selected: Seq<u32>, source: Seq<u32>, budget: int, count: int)
    requires
        0 <= count <= source.len(),
        extend_unique(selected, source.take(count), budget).len() >= budget,
    ensures
        extend_unique(selected, source, budget) == extend_unique(
            selected,
            source.take(count),
            budget,
        ),
    decreases source.len() - count,
{
    if count < source.len() {
        assert(source.take(count + 1).drop_last() =~= source.take(count));
        lemma_full(selected, source, budget, count + 1);
    } else {
        assert(source.take(count) =~= source);
    }
}

/// What is added is distinct, comes from the source and keeps what was selected.
pub proof fn lemma_extend_unique(selected: Seq<u32>, source: Seq<u32>, budget: int)
    requires
        selected.no_duplicates(),
        selected.len() <= budget,
    ensures
        extend_unique(selected, source, budget).no_duplicates(),
        selected.len() <= extend_unique(selected, source, budget).len() <= budget,
        extend_unique(selected, source, budget).take(selected.len() as int) == selected,
        forall|node: u32| #[trigger]
            extend_unique(selected, source, budget).contains(node) ==> selected.contains(node)
                || source.contains(node),
        extend_unique(selected, source, budget).len() < budget ==> forall|node: u32| #[trigger]
            source.contains(node) ==> extend_unique(selected, source, budget).contains(node),
    decreases source.len(),
{
    if source.len() > 0 {
        let front = source.drop_last();
        let extended = extend_unique(selected, front, budget);
        let result = extend_unique(selected, source, budget);
        lemma_extend_unique(selected, front, budget);
        assert(result.take(selected.len() as int) =~= selected);
        assert forall|node: u32| #[trigger] result.contains(node) implies selected.contains(node)
            || source.contains(node) by {
            let at = choose|at: int| 0 <= at < result.len() && result[at] == node;
            if at < extended.len() {
                assert(extended[at] == node);
                assert(extended.contains(node));
                if front.contains(node) {
                    let place = choose|place: int| 0 <= place < front.len() && front[place] == node;
                    assert(source[place] == node);
                }
            } else {
                assert(source[source.len() - 1] == node);
            }
        }
        if result.len() < budget {
            assert forall|node: u32| #[trigger] source.contains(node) implies result.contains(
                node,
            ) by {
                let place = choose|place: int| 0 <= place < source.len() && source[place] == node;
                if place < front.len() {
                    assert(front[place] == node);
                    assert(front.contains(node));
                    assert(extended.contains(node));
                    let at = choose|at: int| 0 <= at < extended.len() && extended[at] == node;
                    assert(result[at] == node);
                } else if extended.contains(node) {
                    let at = choose|at: int| 0 <= at < extended.len() && extended[at] == node;
                    assert(result[at] == node);
                } else {
                    assert(result[extended.len() as int] == node);
                }
            }
        }
    } else {
        assert(selected.take(selected.len() as int) =~= selected);
    }
}

/// Appends those nodes of `source` that are not yet selected, as far as the budget.
fn append_unique(
    selected: &mut Vec<u32>,
    seen: &mut NodeSet,
    source: &[u32],
    budget: usize,
) -> (added: usize)
    requires
        forall|node: u32| #[trigger] old(seen)@.contains(node) <==> old(selected)@.contains(node),
        old(selected)@.len() <= budget,
    ensures
        forall|node: u32| #[trigger]
            final(seen)@.contains(node) <==> final(selected)@.contains(node),
        final(selected)@ == extend_unique(old(selected)@, source@, budget as int),
        final(selected)@.len() <= budget,
        old(selected)@.len() + added == final(selected)@.len(),
{
    let ghost before = selected@;
    let mut added: usize = 0;
    let mut at: usize = 0;
    assert(source@.take(0) =~= Seq::<u32>::empty());
    while at < source.len()
        invariant
            at <= source@.len(),
            selected@ == extend_unique(before, source@.take(at as int), budget as int),
            selected@.len() <= budget,
            before.len() + added == selected@.len(),
            forall|node: u32| #[trigger] seen@.contains(node) <==> selected@.contains(node),
            before == old(selected)@,
        decreases source@.len() - at,
    {
        if selected.len() == budget {
            proof {
                lemma_full(before, source@, budget as int, at as int);
            }
            return added;
        }
        let node: u32 = source[at];
        let ghost current = selected@;
        let ghost known = seen@;
        assert(source@.take(at + 1).drop_last() =~= source@.take(at as int));
        if node_set::insert_node(seen, node) {
            selected.push(node);
            added += 1;
            proof {
                assert forall|other: u32| #[trigger]
                    seen@.contains(other) <==> selected@.contains(other) by {
                    if other == node {
                        assert(selected@[current.len() as int] == node);
                    } else {
                        assert(seen@.contains(other) == known.contains(other));
                        if current.contains(other) {
                            let place = choose|place: int|
                                0 <= place < current.len() && current[place] == other;
                            assert(selected@[place] == other);
                        }
                        if selected@.contains(other) {
                            let place = choose|place: int|
                                0 <= place < selected@.len() && selected@[place] == other;
                            assert(current[place] == other);
                        }
                    }
                }
            }
        } else {
            assert(seen@ =~= known);
        }
        at += 1;
    }
    assert(source@.take(at as int) =~= source@);
    added
}

/// The nodes of the walk that a hybrid cache takes first: as many as were asked
/// for, at least the routing roots and at most the budget.
pub open spec fn bfs_target(requested: int, roots: int, budget: int) -> int {
    let target = if requested > roots {
        requested
    } else {
        roots
    };
    if target < budget {
        target
    } else {
        budget
    }
}

/// The first nodes of a sequence.
pub open spec fn prefix(nodes: Seq<u32>, count: int) -> Seq<u32> {
    if count < nodes.len() {
        nodes.take(count)
    } else {
        nodes
    }
}

/// The nodes of a hybrid cache after its three stages: the walk as far as the
/// target, the frequency-ranked nodes, the rest of the walk.
pub open spec fn hybrid_stages(
    bfs_nodes: Seq<u32>,
    frequency_nodes: Seq<u32>,
    budget: int,
    requested: int,
    roots: int,
) -> (Seq<u32>, Seq<u32>, Seq<u32>) {
    let first = extend_unique(
        Seq::empty(),
        prefix(bfs_nodes, bfs_target(requested, roots, budget)),
        budget,
    );
    let second = extend_unique(first, frequency_nodes, budget);
    (first, second, extend_unique(second, bfs_nodes, budget))
}

/// Why a hybrid cache cannot be composed.
pub open spec fn compose_fault(
    bfs_nodes: Seq<u32>,
    frequency_nodes: Seq<u32>,
    budget: usize,
    requested: usize,
    roots: usize,
    node_len: u64,
) -> Option<CacheError> {
    let nodes = hybrid_stages(
        bfs_nodes,
        frequency_nodes,
        budget as int,
        requested as int,
        roots as int,
    ).2;
    if roots > budget {
        Some(CacheError::BudgetBelowRoots { budget, roots })
    } else if bfs_nodes.len() < roots {
        Some(CacheError::WalkTooShort { nodes: bfs_nodes.len() as usize, roots })
    } else if nodes.len() != budget {
        Some(CacheError::Underfilled { nodes: nodes.len() as usize, budget })
    } else if node_len * budget > u64::MAX {
        Some(CacheError::PayloadOverflow)
    } else {
        None
    }
}

/// Selects the nodes of a hybrid cache: the walk from the routing roots as far as
/// it was asked for, then the frequency-ranked nodes, then the rest of the walk.
pub fn compose_hybrid_cache_nodes(
    bfs_nodes: &[u32],
    frequency_nodes: &[u32],
    cache_budget: usize,
    requested_bfs_nodes: usize,
    routing_root_nodes: usize,
    node_len: u64,
) -> (result: Result<(Vec<u32>, HybridCacheComposition), CacheError>)
    ensures
        ({
            let fault = compose_fault(
                bfs_nodes@,
                frequency_nodes@,
                cache_budget,
                requested_bfs_nodes,
                routing_root_nodes,
                node_len,
            );
            let (first, second, third) = hybrid_stages(
                bfs_nodes@,
                frequency_nodes@,
                cache_budget as int,
                requested_bfs_nodes as int,
                routing_root_nodes as int,
            );
            match result {
                Ok((selected, composition)) => {
                    &&& fault is None
                    &&& selected@ == third
                    &&& composition == (HybridCacheComposition {
                        requested_bfs_nodes,
                        routing_root_nodes,
                        bfs_nodes: first.len() as usize,
                        frequency_nodes: (second.len() - first.len()) as usize,
                        fallback_bfs_nodes: (third.len() - second.len()) as usize,
                        total_nodes: cache_budget,
                        estimated_payload_bytes: (node_len * cache_budget) as u64,
                    })
                },
                Err(error) => fault == Some(error),
            }
        }),
        result is Ok ==> {
            let nodes = result->Ok_0.0@;
            let composition = result->Ok_0.1;
            let wanted = if requested_bfs_nodes > routing_root_nodes {
                requested_bfs_nodes as int
            } else {
                routing_root_nodes as int
            };
            let allowed = if wanted < cache_budget {
                wanted
            } else {
                cache_budget as int
            };
            let share = if allowed < bfs_nodes@.len() {
                allowed
            } else {
                bfs_nodes@.len() as int
            };
            &&& nodes.no_duplicates()
            &&& nodes.len() == cache_budget
            &&& composition.bfs_nodes == bfs_nodes@.take(share).to_set().len()
            &&& composition.bfs_nodes + composition.frequency_nodes
                + composition.fallback_bfs_nodes == cache_budget
            &&& bfs_nodes@.no_duplicates() ==> composition.bfs_nodes == share && nodes.take(share)
                == bfs_nodes@.take(share)
        },
{
    if routing_root_nodes > cache_budget {
        return Err(
            CacheError::BudgetBelowRoots { budget: cache_budget, roots: routing_root_nodes },
        );
    }
    if bfs_nodes.len() < routing_root_nodes {
        return Err(
            CacheError::WalkTooShort { nodes: bfs_nodes.len(), roots: routing_root_nodes },
        );
    }
    let wanted: usize = if requested_bfs_nodes > routing_root_nodes {
        requested_bfs_nodes
    } else {
        routing_root_nodes
    };
    let target: usize = if wanted < cache_budget {
        wanted
    } else {
        cache_budget
    };
    let mut selected: Vec<u32> = Vec::new();
    let mut seen: NodeSet = node_set::new_node_set();
    let head: &[u32] = if target < bfs_nodes.len() {
        vstd::slice::slice_subrange(bfs_nodes, 0, target)
    } else {
        bfs_nodes
    };
    assert(head@ =~= prefix(bfs_nodes@, target as int));
    let actual_bfs_nodes: usize = append_unique(&mut selected, &mut seen, head, cache_budget);
    let frequency_count: usize = append_unique(
        &mut selected,
        &mut seen,
        frequency_nodes,
        cache_budget,
    );
    let fallback_bfs_nodes: usize = append_unique(
        &mut selected,
        &mut seen,
        bfs_nodes,
        cache_budget,
    );
    if selected.len() != cache_budget {
        return Err(CacheError::Underfilled { nodes: selected.len(), budget: cache_budget });
    }
    proof {
        let share = if target < bfs_nodes@.len() {
            target as int
        } else {
            bfs_nodes@.len() as int
        };
        lemma_hybrid_cache_is_composed(
            bfs_nodes@,
            frequency_nodes@,
            cache_budget,
            requested_bfs_nodes,
            routing_root_nodes,
            share,
        );
    }
    match node_len.checked_mul(selected.len() as u64) {
        Some(estimated_payload_bytes) => Ok(
            (
                selected,
                HybridCacheComposition {
                    requested_bfs_nodes,
                    routing_root_nodes,
                    bfs_nodes: actual_bfs_nodes,
                    frequency_nodes: frequency_count,
                    fallback_bfs_nodes,
                    total_nodes: cache_budget,
                    estimated_payload_bytes,
                },
            ),
        ),
        None => Err(CacheError::PayloadOverflow),
    }
}

/// A hybrid cache holds distinct nodes, as many as its budget, and every routing
/// root: the first nodes of the walk, which are the roots, come first.
pub proof fn lemma_hybrid_cache_keeps_roots(
    bfs_nodes: Seq<u32>,
    frequency_nodes: Seq<u32>,
    budget: usize,
    requested: usize,
    roots: usize,
    node_len: u64,
)
    requires
        bfs_nodes.no_duplicates(),
        compose_fault(bfs_nodes, frequency_nodes, budget, requested, roots, node_len) is None,
    ensures
        ({
            let nodes = hybrid_stages(
                bfs_nodes,
                frequency_nodes,
                budget as int,
                requested as int,
                roots as int,
            ).2;
            &&& nodes.no_duplicates()
            &&& nodes.len() == budget
            &&& nodes.take(roots as int) == bfs_nodes.take(roots as int)
        }),
{
    let limit = budget as int;
    let target = bfs_target(requested as int, roots as int, limit);
    let head = prefix(bfs_nodes, target);
    let (first, second, third) = hybrid_stages(
        bfs_nodes,
        frequency_nodes,
        limit,
        requested as int,
        roots as int,
    );
    lemma_extend_distinct(head, limit);
    lemma_extend_unique(Seq::empty(), head, limit);
    lemma_extend_unique(first, frequency_nodes, limit);
    lemma_extend_unique(second, bfs_nodes, limit);
    assert(third.take(roots as int) =~= third.take(second.len() as int).take(
        first.len() as int,
    ).take(roots as int));
    assert(second.take(first.len() as int) == first);
    assert(head.take(roots as int) =~= bfs_nodes.take(roots as int));
}

/// Distinct nodes that fit the budget are all taken, in order.
proof fn lemma_extend_distinct(source: Seq<u32>, budget: int)
    requires
        source.no_duplicates(),
        source.len() <= budget,
    ensures
        extend_unique(Seq::empty(), source, budget) == source,
    decreases source.len(),
{
    if source.len() > 0 {
        let front = source.drop_last();
        lemma_extend_distinct(front, budget);
        if front.contains(source.last()) {
            let at = choose|at: int| 0 <= at < front.len() && front[at] == source.last();
            assert(source[at] == source[source.len() - 1]);
        }
        assert(front.push(source.last()) =~= source);
    }
}

/// The first of `nodes` that is no node of a graph of `points` nodes, if any is.
pub open spec fn first_outside(nodes: Seq<u32>, points: u64) -> Option<u32>
    decreases nodes.len(),
{
    if nodes.len() == 0 {
        None
    } else {
        match first_outside(nodes.drop_last(), points) {
            Some(node) => Some(node),
            None => if nodes.last() >= points {
                Some(nodes.last())
            } else {
                None
            },
        }
    }
}

/// The first node that is no node of the graph.
fn find_outside(nodes: &[u32], points: u64) -> (found: Option<u32>)
    ensures
        found == first_outside(nodes@, points),
{
    let mut at: usize = 0;
    while at < nodes.len()
        invariant
            at <= nodes@.len(),
            first_outside(nodes@.take(at as int), points) is None,
        decreases nodes@.len() - at,
    {
        let node: u32 = nodes[at];
        assert(nodes@.take(at + 1).drop_last() =~= nodes@.take(at as int));
        if node as u64 >= points {
            proof {
                lemma_outside_stays(nodes@, points, at + 1);
            }
            return Some(node);
        }
        at += 1;
    }
    assert(nodes@.take(at as int) =~= nodes@);
    None
}

/// The first node outside stays the first.
proof fn lemma_outside_stays(nodes: Seq<u32>, points: u64, count: int)
    requires
        0 <= count <= nodes.len(),
        first_outside(nodes.take(count), points) is Some,
    ensures
        first_outside(nodes, points) == first_outside(nodes.take(count), points),
    decreases nodes.len() - count,
{
    if count < nodes.len() {
        assert(nodes.take(count + 1).drop_last() =~= nodes.take(count));
        lemma_outside_stays(nodes, points, count + 1);
    } else {
        assert(nodes.take(count) =~= nodes);
    }
}

/// Why a hybrid cache is refused before any node is read.
pub open spec fn hybrid_fault(
    seeds: Seq<u32>,
    frequency_nodes: Seq<u32>,
    budget: usize,
    points: u64,
) -> Option<CacheError> {
    if seeds.len() == 0 {
        Some(CacheError::NoRoots)
    } else if budget == 0 {
        Some(CacheError::ZeroBudget)
    } else if budget > points as usize {
        Some(CacheError::BudgetExceedsPoints { budget, points })
    } else if first_outside(seeds, points) is Some {
        Some(CacheError::RootOutOfRange { root: first_outside(seeds, points)->0, points })
    } else if seeds.to_set().len() > budget {
        Some(
            CacheError::BudgetBelowUniqueRoots { budget, roots: seeds.to_set().len() as usize },
        )
    } else if first_outside(frequency_nodes, points) is Some {
        Some(
            CacheError::FrequencyNodeOutOfRange {
                node: first_outside(frequency_nodes, points)->0,
                points,
            },
        )
    } else {
        None
    }
}

/// Checks a request for a hybrid cache of a graph with `points` nodes, and counts
/// its unique routing roots.
pub fn check_hybrid_request(
    seeds: &[u32],
    frequency_nodes: &[u32],
    num_nodes_to_cache: usize,
    points: u64,
) -> (result: Result<usize, CacheError>)
    ensures
        match result {
            Ok(roots) => hybrid_fault(seeds@, frequency_nodes@, num_nodes_to_cache, points) is None
                && roots == seeds@.to_set().len(),
            Err(error) => hybrid_fault(seeds@, frequency_nodes@, num_nodes_to_cache, points)
                == Some(error),
        },
{
    if seeds.len() == 0 {
        return Err(CacheError::NoRoots);
    }
    if num_nodes_to_cache == 0 {
        return Err(CacheError::ZeroBudget);
    }
    if num_nodes_to_cache > points as usize {
        return Err(CacheError::BudgetExceedsPoints { budget: num_nodes_to_cache, points });
    }
    match find_outside(seeds, points) {
        Some(root) => {
            return Err(CacheError::RootOutOfRange { root, points });
        },
        None => {},
    }
    let roots: usize = count_unique(seeds);
    if roots > num_nodes_to_cache {
        return Err(CacheError::BudgetBelowUniqueRoots { budget: num_nodes_to_cache, roots });
    }
    match find_outside(frequency_nodes, points) {
        Some(node) => Err(CacheError::FrequencyNodeOutOfRange { node, points }),
        None => Ok(roots),
    }
}

/// How many different nodes there are.
fn count_unique(nodes: &[u32]) -> (count: usize)
    ensures
        count == nodes@.to_set().len(),
{
    let mut seen: NodeSet = node_set::new_node_set();
    let mut at: usize = 0;
    assert(nodes@.take(0).to_set() =~= Set::<u32>::empty());
    while at < nodes.len()
        invariant
            at <= nodes@.len(),
            seen@ == nodes@.take(at as int).to_set(),
        decreases nodes@.len() - at,
    {
        let ghost before = seen@;
        node_set::insert_node(&mut seen, nodes[at]);
        proof {
            let taken = nodes@.take(at as int);
            let grown = nodes@.take(at + 1);
            assert(grown =~= taken.push(nodes@[at as int]));
            assert(seen@ =~= grown.to_set()) by {
                assert forall|node: u32| seen@.contains(node) implies grown.to_set().contains(
                    node,
                ) by {
                    if node == nodes@[at as int] {
                        assert(grown[at as int] == node);
                    } else {
                        assert(taken.to_set().contains(node));
                        let place = choose|place: int|
                            0 <= place < taken.len() && taken[place] == node;
                        assert(grown[place] == node);
                    }
                }
                assert forall|node: u32| grown.to_set().contains(node) implies seen@.contains(
                    node,
                ) by {
                    let place = choose|place: int|
                        0 <= place < grown.len() && grown[place] == node;
                    if place < taken.len() {
                        assert(taken[place] == node);
                        assert(taken.to_set().contains(node));
                    }
                }
            }
        }
        at += 1;
    }
    assert(nodes@.take(at as int) =~= nodes@);
    node_set::node_count(&seen)
}

/// The selection of the first `budget` different nodes, or the first node met on
/// the way that is not below `bound`.
pub open spec fn exact_selection(nodes: Seq<u32>, bound: int, budget: int) -> Result<
    Seq<u32>,
    u32,
>
    decreases nodes.len(),
{
    if nodes.len() == 0 {
        Ok(Seq::empty())
    } else {
        match exact_selection(nodes.drop_last(), bound, budget) {
            Err(node) => Err(node),
            Ok(selected) => if budget > 0 && selected.len() == budget {
                Ok(selected)
            } else if nodes.last() >= bound {
                Err(nodes.last())
            } else if selected.contains(nodes.last()) {
                Ok(selected)
            } else {
                Ok(selected.push(nodes.last()))
            },
        }
    }
}

/// A selection that is complete, or failed, stays so.
proof fn lemma_selection_stays(nodes: Seq<u32>, bound: int, budget: int, count: int)
    requires
        0 <= count <= nodes.len(),
        match exact_selection(nodes.take(count), bound, budget) {
            Ok(selected) => budget > 0 && selected.len() == budget,
            Err(_) => true,
        },
    ensures
        exact_selection(nodes, bound, budget) == exact_selection(
            nodes.take(count),
            bound,
            budget,
        ),
    decreases nodes.len() - count,
{
    if count < nodes.len() {
        assert(nodes.take(count + 1).drop_last() =~= nodes.take(count));
        lemma_selection_stays(nodes, bound, budget, count + 1);
    } else {
        assert(nodes.take(count) =~= nodes);
    }
}

/// The smaller of two numbers.
pub open spec fn smaller(left: usize, right: usize) -> usize {
    if left < right {
        left
    } else {
        right
    }
}

/// Selects the first different nodes, as many as are to be cached and at most as
/// many as the graph has.
pub fn select_exact_nodes(nodes: &[u32], num_nodes_to_cache: usize, points: u64) -> (result: Result<
    Vec<u32>,
    CacheError,
>)
    ensures
        match exact_selection(
            nodes@,
            points as usize as int,
            smaller(num_nodes_to_cache, points as usize) as int,
        ) {
            Ok(selected) => result is Ok && result->Ok_0@ == selected,
            Err(node) => result == Err::<Vec<u32>, CacheError>(
                CacheError::CacheNodeOutOfRange { node, points },
            ),
        },
{
    let bound: usize = points as usize;
    let budget: usize = if num_nodes_to_cache < bound {
        num_nodes_to_cache
    } else {
        bound
    };
    let mut seen: NodeSet = node_set::new_node_set();
    let mut selected: Vec<u32> = Vec::new();
    let mut at: usize = 0;
    while at < nodes.len()
        invariant
            at <= nodes@.len(),
            bound == points as usize,
            budget == smaller(num_nodes_to_cache, bound),
            exact_selection(nodes@.take(at as int), bound as int, budget as int) == Ok::<
                Seq<u32>,
                u32,
            >(selected@),
            budget > 0 ==> selected@.len() < budget,
            budget == 0 ==> bound == 0 || num_nodes_to_cache == 0,
            forall|node: u32| #[trigger] seen@.contains(node) <==> selected@.contains(node),
        decreases nodes@.len() - at,
    {
        let node: u32 = nodes[at];
        assert(nodes@.take(at + 1).drop_last() =~= nodes@.take(at as int));
        if node as usize >= bound {
            proof {
                lemma_selection_stays(nodes@, bound as int, budget as int, at + 1);
            }
            return Err(CacheError::CacheNodeOutOfRange { node, points });
        }
        let ghost current = selected@;
        let ghost known = seen@;
        if node_set::insert_node(&mut seen, node) {
            selected.push(node);
            proof {
                assert forall|other: u32| #[trigger]
                    seen@.contains(other) <==> selected@.contains(other) by {
                    if other == node {
                        assert(selected@[current.len() as int] == node);
                    } else {
                        assert(seen@.contains(other) == known.contains(other));
                        if current.contains(other) {
                            let place = choose|place: int|
                                0 <= place < current.len() && current[place] == other;
                            assert(selected@[place] == other);
                        }
                        if selected@.contains(other) {
                            let place = choose|place: int|
                                0 <= place < selected@.len() && selected@[place] == other;
                            assert(current[place] == other);
                        }
                    }
                }
            }
            if selected.len() == budget {
                proof {
                    lemma_selection_stays(nodes@, bound as int, budget as int, at + 1);
                }
                return Ok(selected);
            }
        } else {
            assert(seen@ =~= known);
        }
        at += 1;
    }
    assert(nodes@.take(at as int) =~= nodes@);
    Ok(selected)
}

/// What is selected from a source: behind what was selected before, the nodes of the source
/// that are not selected yet, each once, in the order of the source, until the budget is used
/// up or the source is.
pub proof fn lemma_selection_follows_source(selected: Seq<u32>, source: Seq<u32>, budget: int)
    requires
        selected.no_duplicates(),
        selected.len() <= budget,
    ensures
        ({
            let all = extend_unique(selected, source, budget);
            let before = selected.len() as int;
            &&& all.no_duplicates()
            &&& before <= all.len() <= budget
            &&& all.take(before) == selected
            &&& forall|at: int|
                before <= at < all.len() ==> source.contains(#[trigger] all[at])
            &&& all.len() < budget ==> forall|at: int|
                0 <= at < source.len() ==> all.contains(#[trigger] source[at])
            &&& forall|done: int, at: int|
                #![trigger all[done], source[at]]
                before <= done < all.len() && 0 <= at < source.len() && !all.take(
                    done + 1,
                ).contains(source[at]) ==> source.take(at).contains(all[done])
        }),
    decreases source.len(),
{
    let all = extend_unique(selected, source, budget);
    let before = selected.len() as int;
    lemma_extend_unique(selected, source, budget);
    assert forall|at: int| before <= at < all.len() implies source.contains(#[trigger] all[at]) by {
        assert(all.contains(all[at]));
        if selected.contains(all[at]) {
            let place = choose|place: int| 0 <= place < before && selected[place] == all[at];
            assert(all.take(before)[place] == all[place]);
        }
    }
    if all.len() < budget {
        assert forall|at: int| 0 <= at < source.len() implies all.contains(
            #[trigger] source[at],
        ) by {
            assert(source.contains(source[at]));
        }
    }
    if source.len() > 0 {
        let front = source.drop_last();
        let last = source.last();
        let fewer = extend_unique(selected, front, budget);
        lemma_selection_follows_source(selected, front, budget);
        assert forall|done: int, at: int|
            #![trigger all[done], source[at]]
            before <= done < all.len() && 0 <= at < source.len() && !all.take(done + 1).contains(
                source[at],
            ) implies source.take(at).contains(all[done]) by {
            if done < fewer.len() {
                assert(all.take(done + 1) =~= fewer.take(done + 1));
                assert(all[done] == fewer[done]);
                if at < front.len() {
                    assert(front[at] == source[at]);
                    assert(front.take(at) =~= source.take(at));
                } else {
                    assert(source.take(at) =~= front);
                }
            } else {
                assert(all =~= fewer.push(last));
                assert(all.take(done + 1) =~= all);
                if at < front.len() {
                    assert(front[at] == source[at]);
                    assert(fewer.contains(front[at]));
                    let place = choose|place: int|
                        0 <= place < fewer.len() && fewer[place] == front[at];
                    assert(all[place] == source[at]);
                } else {
                    assert(all[done] == source[at]);
                }
            }
        }
    }
}

/// A source that is no longer than the budget is selected whole.
proof fn lemma_short_source_is_selected(source: Seq<u32>, budget: int)
    requires
        source.len() <= budget,
    ensures
        extend_unique(Seq::empty(), source, budget).len() <= source.len(),
        extend_unique(Seq::empty(), source, budget).to_set() == source.to_set(),
    decreases source.len(),
{
    let all = extend_unique(Seq::empty(), source, budget);
    lemma_extend_unique(Seq::empty(), source, budget);
    if source.len() > 0 {
        let front = source.drop_last();
        let fewer = extend_unique(Seq::empty(), front, budget);
        lemma_short_source_is_selected(front, budget);
        assert forall|at: int| 0 <= at < source.len() implies all.contains(
            #[trigger] source[at],
        ) by {
            if at < front.len() {
                assert(front[at] == source[at]);
                assert(fewer.to_set().contains(source[at]));
                let place = choose|place: int| 0 <= place < fewer.len() && fewer[place] == source[at];
                assert(all[place] == source[at]);
            } else if fewer.contains(source.last()) {
                let place = choose|place: int|
                    0 <= place < fewer.len() && fewer[place] == source.last();
                assert(all[place] == source[at]);
            } else {
                assert(all[fewer.len() as int] == source[at]);
            }
        }
    }
    assert forall|node: u32| all.to_set().contains(node) <==> source.to_set().contains(node) by {
        if all.contains(node) {
            assert(source.contains(node));
        }
        if source.contains(node) {
            let at = choose|at: int| 0 <= at < source.len() && source[at] == node;
            assert(all.contains(source[at]));
        }
    }
    assert(all.to_set() =~= source.to_set());
}

/// How a hybrid cache is composed. The walk's share is as much as was asked for, at least the
/// routing roots, at most the budget and at most the whole walk; the different nodes of that
/// share come first, in the order of the walk. Behind them come the frequency-ranked nodes
/// that are not there yet, in their order, and if all of them leave room, further nodes of
/// the walk in its order. No node comes twice, and the budget is used up.
pub proof fn lemma_hybrid_cache_is_composed(
    bfs_nodes: Seq<u32>,
    frequency_nodes: Seq<u32>,
    budget: usize,
    requested: usize,
    roots: usize,
    share: int,
)
    requires
        share <= bfs_nodes.len(),
        share <= budget,
        share <= requested || share <= roots,
        share == bfs_nodes.len() || share == budget || (share >= requested && share >= roots),
        0 <= share,
        hybrid_stages(
            bfs_nodes,
            frequency_nodes,
            budget as int,
            requested as int,
            roots as int,
        ).2.len() == budget,
    ensures
        ({
            let (first, second, nodes) = hybrid_stages(
                bfs_nodes,
                frequency_nodes,
                budget as int,
                requested as int,
                roots as int,
            );
            &&& nodes.no_duplicates()
            &&& first.len() <= second.len() <= nodes.len()
            &&& first.len() == bfs_nodes.take(share).to_set().len()
            &&& nodes.take(first.len() as int).to_set() == bfs_nodes.take(share).to_set()
            &&& forall|done: int, at: int|
                #![trigger nodes[done], bfs_nodes[at]]
                0 <= done < first.len() && 0 <= at < share && !nodes.take(done + 1).contains(
                    bfs_nodes[at],
                ) ==> bfs_nodes.take(at).contains(nodes[done])
            &&& bfs_nodes.no_duplicates() ==> first.len() == share && nodes.take(share)
                == bfs_nodes.take(share)
            &&& forall|done: int|
                first.len() <= done < second.len() ==> frequency_nodes.contains(
                    #[trigger] nodes[done],
                )
            &&& forall|done: int, at: int|
                #![trigger nodes[done], frequency_nodes[at]]
                first.len() <= done < second.len() && 0 <= at < frequency_nodes.len()
                    && !nodes.take(done + 1).contains(frequency_nodes[at])
                    ==> frequency_nodes.take(at).contains(nodes[done])
            &&& second.len() < nodes.len() ==> forall|at: int|
                0 <= at < frequency_nodes.len() ==> nodes.take(second.len() as int).contains(
                    #[trigger] frequency_nodes[at],
                )
            &&& forall|done: int|
                second.len() <= done < nodes.len() ==> bfs_nodes.contains(#[trigger] nodes[done])
            &&& forall|done: int, at: int|
                #![trigger nodes[done], bfs_nodes[at]]
                second.len() <= done < nodes.len() && 0 <= at < bfs_nodes.len() && !nodes.take(
                    done + 1,
                ).contains(bfs_nodes[at]) ==> bfs_nodes.take(at).contains(nodes[done])
        }),
{
    let limit = budget as int;
    let (first, second, nodes) = hybrid_stages(
        bfs_nodes,
        frequency_nodes,
        limit,
        requested as int,
        roots as int,
    );
    let head = prefix(bfs_nodes, bfs_target(requested as int, roots as int, limit));
    assert(head =~= bfs_nodes.take(share));
    lemma_short_source_is_selected(head, limit);
    lemma_selection_follows_source(Seq::empty(), head, limit);
    lemma_selection_follows_source(first, frequency_nodes, limit);
    lemma_selection_follows_source(second, bfs_nodes, limit);
    assert(nodes.take(second.len() as int) == second);
    assert(second.take(first.len() as int) == first);
    assert(nodes.take(first.len() as int) =~= first);
    first.unique_seq_to_set();
    assert forall|done: int| 0 <= done < second.len() implies #[trigger] nodes[done]
        == second[done] && nodes.take(done + 1) == second.take(done + 1) by {
        assert(nodes.take(second.len() as int)[done] == nodes[done]);
        assert(nodes.take(done + 1) =~= nodes.take(second.len() as int).take(done + 1));
    }
    assert forall|done: int| 0 <= done < first.len() implies #[trigger] nodes[done] == first[done]
        && nodes.take(done + 1) == first.take(done + 1) by {
        assert(nodes.take(first.len() as int)[done] == nodes[done]);
        assert(nodes.take(done + 1) =~= nodes.take(first.len() as int).take(done + 1));
    }
    assert forall|done: int, at: int|
        #![trigger nodes[done], bfs_nodes[at]]
        0 <= done < first.len() && 0 <= at < share && !nodes.take(done + 1).contains(
            bfs_nodes[at],
        ) implies bfs_nodes.take(at).contains(nodes[done]) by {
        assert(head[at] == bfs_nodes[at]);
        assert(head.take(at) =~= bfs_nodes.take(at));
        assert(first[done] == nodes[done]);
    }
    if bfs_nodes.no_duplicates() {
        lemma_extend_distinct(head, limit);
    }
    assert forall|done: int| first.len() <= done < second.len() implies frequency_nodes.contains(
        #[trigger] nodes[done],
    ) by {
        assert(second[done] == nodes[done]);
    }
    assert forall|done: int, at: int|
        #![trigger nodes[done], frequency_nodes[at]]
        first.len() <= done < second.len() && 0 <= at < frequency_nodes.len() && !nodes.take(
            done + 1,
        ).contains(frequency_nodes[at]) implies frequency_nodes.take(at).contains(nodes[done]) by {
        assert(second[done] == nodes[done]);
    }
}

/// When a hybrid cache can be composed, and what is wrong otherwise: the budget must hold the
/// routing roots, the walk must have reached as many nodes as there are roots, the different
/// nodes of the walk and of the frequency ranks together must use up the budget, and its
/// bytes must be a `u64`.
pub proof fn lemma_hybrid_cache_is_owed(
    bfs_nodes: Seq<u32>,
    frequency_nodes: Seq<u32>,
    budget: usize,
    requested: usize,
    roots: usize,
    node_len: u64,
)
    requires
        bfs_nodes.len() <= usize::MAX,
    ensures
        ({
            let fault = compose_fault(
                bfs_nodes,
                frequency_nodes,
                budget,
                requested,
                roots,
                node_len,
            );
            let different = bfs_nodes.to_set().union(frequency_nodes.to_set()).len();
            if roots > budget {
                fault == Some(CacheError::BudgetBelowRoots { budget, roots })
            } else if bfs_nodes.len() < roots {
                fault == Some(CacheError::WalkTooShort { nodes: bfs_nodes.len() as usize, roots })
            } else if different < budget {
                fault == Some(CacheError::Underfilled { nodes: different as usize, budget })
            } else if node_len * budget > u64::MAX {
                fault == Some(CacheError::PayloadOverflow)
            } else {
                fault is None
            }
        }),
{
    let limit = budget as int;
    let (first, second, nodes) = hybrid_stages(
        bfs_nodes,
        frequency_nodes,
        limit,
        requested as int,
        roots as int,
    );
    let head = prefix(bfs_nodes, bfs_target(requested as int, roots as int, limit));
    let different = bfs_nodes.to_set().union(frequency_nodes.to_set());
    lemma_extend_unique(Seq::empty(), head, limit);
    lemma_extend_unique(first, frequency_nodes, limit);
    lemma_extend_unique(second, bfs_nodes, limit);
    nodes.unique_seq_to_set();
    vstd::seq_lib::seq_to_set_is_finite(bfs_nodes);
    vstd::seq_lib::seq_to_set_is_finite(frequency_nodes);
    assert forall|node: u32| nodes.to_set().contains(node) implies different.contains(node) by {
        assert(nodes.contains(node));
        if second.contains(node) && first.contains(node) {
            assert(head.contains(node));
            let at = choose|at: int| 0 <= at < head.len() && head[at] == node;
            assert(bfs_nodes[at] == node);
        }
    }
    vstd::set_lib::lemma_len_subset(nodes.to_set(), different);
    if nodes.len() < limit {
        assert forall|node: u32| different.contains(node) implies nodes.to_set().contains(
            node,
        ) by {
            if frequency_nodes.contains(node) {
                assert(second.contains(node));
                let at = choose|at: int| 0 <= at < second.len() && second[at] == node;
                assert(nodes.take(second.len() as int)[at] == nodes[at]);
            }
        }
        assert(different =~= nodes.to_set());
    }
}

/// The first node outside a graph is a node whose ID is not below the number of points, and
/// all nodes before it are below; where there is none, all nodes are.
pub proof fn lemma_first_outside_is_first(nodes: Seq<u32>, points: u64)
    ensures
        match first_outside(nodes, points) {
            Some(node) => exists|at: int|
                0 <= at < nodes.len() && #[trigger] nodes[at] == node && node >= points && forall|
                    earlier: int,
                |
                    0 <= earlier < at ==> #[trigger] nodes[earlier] < points,
            None => forall|at: int| 0 <= at < nodes.len() ==> #[trigger] nodes[at] < points,
        },
    decreases nodes.len(),
{
    if nodes.len() > 0 {
        let front = nodes.drop_last();
        lemma_first_outside_is_first(front, points);
        match first_outside(front, points) {
            Some(node) => {
                let at = choose|at: int|
                    0 <= at < front.len() && #[trigger] front[at] == node && node >= points
                        && forall|earlier: int|
                        0 <= earlier < at ==> #[trigger] front[earlier] < points;
                assert(nodes[at] == node);
                assert forall|earlier: int| 0 <= earlier < at implies #[trigger] nodes[earlier]
                    < points by {
                    assert(front[earlier] == nodes[earlier]);
                }
            },
            None => {
                assert forall|at: int| 0 <= at < front.len() implies #[trigger] nodes[at]
                    < points by {
                    assert(front[at] == nodes[at]);
                }
                assert(nodes[nodes.len() - 1] == nodes.last());
            },
        }
    }
}

/// When a request for a hybrid cache is accepted: there are roots and a budget, the budget is
/// no larger than the graph and no smaller than the number of different roots, and all roots
/// and frequency-ranked nodes are nodes of the graph.
pub proof fn lemma_hybrid_request_is_owed(
    seeds: Seq<u32>,
    frequency_nodes: Seq<u32>,
    budget: usize,
    points: u64,
)
    ensures
        hybrid_fault(seeds, frequency_nodes, budget, points) is None <==> {
            &&& seeds.len() > 0
            &&& 0 < budget <= points as usize
            &&& seeds.to_set().len() <= budget
            &&& forall|at: int| 0 <= at < seeds.len() ==> #[trigger] seeds[at] < points
            &&& forall|at: int|
                0 <= at < frequency_nodes.len() ==> #[trigger] frequency_nodes[at] < points
        },
{
    lemma_first_outside_is_first(seeds, points);
    lemma_first_outside_is_first(frequency_nodes, points);
}

/// Nodes are selected exactly: the different nodes in the order given, until there are as
/// many as the budget. The nodes up to where the last one was found are below the bound. The
/// selection fails only on a node that is not, met before the budget was used up: the nodes
/// before it are below the bound and fewer of them than the budget are different.
pub proof fn lemma_exact_selection(nodes: Seq<u32>, bound: int, budget: int)
    requires
        0 < budget,
    ensures
        match exact_selection(nodes, bound, budget) {
            Ok(selected) => {
                &&& selected.no_duplicates()
                &&& selected.len() <= budget
                &&& forall|at: int|
                    0 <= at < selected.len() ==> nodes.contains(#[trigger] selected[at])
                        && selected[at] < bound
                &&& selected.len() < budget ==> forall|at: int|
                    0 <= at < nodes.len() ==> selected.contains(#[trigger] nodes[at])
                &&& forall|done: int, at: int|
                    #![trigger selected[done], nodes[at]]
                    0 <= done < selected.len() && 0 <= at < nodes.len() && !selected.take(
                        done + 1,
                    ).contains(nodes[at]) ==> nodes.take(at).contains(selected[done])
            },
            Err(node) => exists|at: int|
                0 <= at < nodes.len() && #[trigger] nodes[at] == node && node >= bound
                    && nodes.take(at).to_set().len() < budget && forall|earlier: int|
                    0 <= earlier < at ==> #[trigger] nodes[earlier] < bound,
        },
    decreases nodes.len(),
{
    if nodes.len() > 0 {
        let front = nodes.drop_last();
        let last = nodes.last();
        lemma_exact_selection(front, bound, budget);
        match exact_selection(front, bound, budget) {
            Err(node) => {
                let at = choose|at: int|
                    0 <= at < front.len() && #[trigger] front[at] == node && node >= bound
                        && front.take(at).to_set().len() < budget && forall|earlier: int|
                        0 <= earlier < at ==> #[trigger] front[earlier] < bound;
                assert(nodes[at] == node);
                assert(nodes.take(at) =~= front.take(at));
                assert forall|earlier: int| 0 <= earlier < at implies #[trigger] nodes[earlier]
                    < bound by {
                    assert(front[earlier] == nodes[earlier]);
                }
            },
            Ok(fewer) => {
                assert forall|at: int| 0 <= at < fewer.len() implies nodes.contains(
                    #[trigger] fewer[at],
                ) by {
                    let place = choose|place: int|
                        0 <= place < front.len() && front[place] == fewer[at];
                    assert(nodes[place] == fewer[at]);
                }
                if fewer.len() < budget && last >= bound {
                    let at = nodes.len() - 1;
                    assert(nodes[at] == last);
                    assert(nodes.take(at) =~= front);
                    assert(front.to_set() =~= fewer.to_set()) by {
                        assert forall|node: u32| front.contains(node) <==> fewer.contains(node) by {
                            if front.contains(node) {
                                let place = choose|place: int|
                                    0 <= place < front.len() && front[place] == node;
                                assert(fewer.contains(front[place]));
                            }
                            if fewer.contains(node) {
                                let place = choose|place: int|
                                    0 <= place < fewer.len() && fewer[place] == node;
                                assert(front.contains(fewer[place]));
                            }
                        }
                    }
                    fewer.unique_seq_to_set();
                    assert forall|earlier: int| 0 <= earlier < at implies #[trigger] nodes[earlier]
                        < bound by {
                        assert(fewer.contains(front[earlier]));
                        let place = choose|place: int|
                            0 <= place < fewer.len() && fewer[place] == front[earlier];
                        assert(fewer[place] < bound);
                    }
                } else {
                    let selected = exact_selection(nodes, bound, budget)->Ok_0;
                    assert(nodes[nodes.len() - 1] == last);
                    let grown = selected.len() > fewer.len();
                    if selected.len() < budget {
                        assert forall|at: int| 0 <= at < nodes.len() implies selected.contains(
                            #[trigger] nodes[at],
                        ) by {
                            if at < front.len() {
                                assert(fewer.contains(front[at]));
                                let place = choose|place: int|
                                    0 <= place < fewer.len() && fewer[place] == front[at];
                                assert(selected[place] == nodes[at]);
                            } else if grown {
                                assert(selected[fewer.len() as int] == last);
                            }
                        }
                    }
                    assert forall|done: int, at: int|
                        #![trigger selected[done], nodes[at]]
                        0 <= done < selected.len() && 0 <= at < nodes.len() && !selected.take(
                            done + 1,
                        ).contains(nodes[at]) implies nodes.take(at).contains(selected[done]) by {
                        if done < fewer.len() {
                            assert(selected.take(done + 1) =~= fewer.take(done + 1));
                            assert(selected[done] == fewer[done]);
                            if at < front.len() {
                                assert(front[at] == nodes[at]);
                                assert(front.take(at) =~= nodes.take(at));
                            } else {
                                assert(nodes.take(at) =~= front);
                            }
                        } else {
                            assert(selected.take(done + 1) =~= selected);
                            if at < front.len() {
                                assert(fewer.contains(front[at]));
                                let place = choose|place: int|
                                    0 <= place < fewer.len() && fewer[place] == front[at];
                                assert(selected[place] == nodes[at]);
                            } else {
                                assert(selected[done] == nodes[at]);
                            }
                        }
                    }
                }
            },
        }
    }
}

/// The smaller of two numbers is one of them and exceeds neither.
pub proof fn lemma_smaller_is_least(left: usize, right: usize)
    ensures
        smaller(left, right) <= left,
        smaller(left, right) <= right,
        smaller(left, right) == left || smaller(left, right) == right,
{
}

/// A graph without points has no node to select: the first node given is reported.
pub proof fn lemma_exact_selection_of_empty_graph(nodes: Seq<u32>, budget: int)
    requires
        0 < nodes.len(),
        0 <= budget,
    ensures
        exact_selection(nodes, 0, budget) == Err::<Seq<u32>, u32>(nodes[0]),
    decreases nodes.len(),
{
    let front = nodes.drop_last();
    if front.len() > 0 {
        lemma_exact_selection_of_empty_graph(front, budget);
        assert(front[0] == nodes[0]);
    } else {
        assert(exact_selection(front, 0, budget) == Ok::<Seq<u32>, u32>(Seq::empty()));
        if budget == 0 {
            assert(nodes.last() == nodes[0]);
        }
    }
}

/// What is reported of a request for a hybrid cache that is refused: missing roots, then a
/// missing budget, then one larger than the graph, then the first root that is no node, then
/// a budget below the number of different roots, then the first frequency-ranked node that is
/// no node.
pub proof fn lemma_hybrid_refusals(
    seeds: Seq<u32>,
    frequency_nodes: Seq<u32>,
    budget: usize,
    points: u64,
    at: int,
)
    ensures
        ({
            let fault = hybrid_fault(seeds, frequency_nodes, budget, points);
            let roots = seeds.to_set().len();
            let is_first = |nodes: Seq<u32>|
                0 <= at < nodes.len() && nodes[at] >= points && forall|earlier: int|
                    0 <= earlier < at ==> #[trigger] nodes[earlier] < points;
            let roots_fit = forall|place: int|
                0 <= place < seeds.len() ==> #[trigger] seeds[place] < points;
            &&& seeds.len() == 0 ==> fault == Some(CacheError::NoRoots)
            &&& seeds.len() > 0 && budget == 0 ==> fault == Some(CacheError::ZeroBudget)
            &&& seeds.len() > 0 && budget > 0 && budget > points as usize ==> fault == Some(
                CacheError::BudgetExceedsPoints { budget, points },
            )
            &&& 0 < budget <= points as usize && is_first(seeds) ==> fault == Some(
                CacheError::RootOutOfRange { root: seeds[at], points },
            )
            &&& seeds.len() > 0 && 0 < budget <= points as usize && roots_fit && roots > budget
                ==> fault == Some(
                CacheError::BudgetBelowUniqueRoots { budget, roots: roots as usize },
            )
            &&& seeds.len() > 0 && 0 < budget <= points as usize && roots_fit && roots <= budget
                && is_first(frequency_nodes) ==> fault == Some(
                CacheError::FrequencyNodeOutOfRange { node: frequency_nodes[at], points },
            )
        }),
{
    lemma_first_outside_is_first(seeds, points);
    lemma_first_outside_is_first(frequency_nodes, points);
    lemma_one_first_outside(seeds, points, at);
    lemma_one_first_outside(frequency_nodes, points, at);
}

/// A node outside behind none but nodes inside is the first one outside.
proof fn lemma_one_first_outside(nodes: Seq<u32>, points: u64, at: int)
    ensures
        0 <= at < nodes.len() && nodes[at] >= points && (forall|earlier: int|
            0 <= earlier < at ==> #[trigger] nodes[earlier] < points) ==> first_outside(
            nodes,
            points,
        ) == Some(nodes[at]),
{
    lemma_first_outside_is_first(nodes, points);
    if 0 <= at < nodes.len() && nodes[at] >= points && (forall|earlier: int|
        0 <= earlier < at ==> #[trigger] nodes[earlier] < points) {
        match first_outside(nodes, points) {
            Some(node) => {
                let place = choose|place: int|
                    0 <= place < nodes.len() && #[trigger] nodes[place] == node && node >= points
                        && forall|earlier: int|
                        0 <= earlier < place ==> #[trigger] nodes[earlier] < points;
                if place < at {
                    assert(nodes[place] < points);
                } else if at < place {
                    assert(nodes[at] < points);
                }
            },
            None => {
                assert(nodes[at] < points);
            },
        }
    }
}

} // verus!
