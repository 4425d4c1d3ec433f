//! Sets of node IDs.
use hashbrown::HashSet;
use vstd::prelude::*;

verus! {

/// A set of node IDs, held in a `hashbrown` hash set.
#[verifier::external_body]
#[derive(Debug)]
pub struct NodeSet {
    nodes: HashSet<u32>,
}

/// The node IDs that a set holds.
pub uninterp spec fn node_set_contents(set: NodeSet) -> Set<u32>;

impl View for NodeSet {
    type V = Set<u32>;

    open spec fn view(&self) -> Set<u32> {
        node_set_contents(*self)
    }
}

/// Calls `hashbrown::HashSet::new`, which makes a set without elements.
#[verifier::external_body]
pub(crate) fn new_node_set() -> (set: NodeSet)
    ensures
        node_set_contents(set) == Set::<u32>::empty(),
{
    NodeSet { nodes: HashSet::new() }
}

/// Calls `hashbrown::HashSet::insert`, which adds a value and says whether the
/// set did not hold it before.
#[verifier::external_body]
pub(crate) fn insert_node(set: &mut NodeSet, node: u32) -> (added: bool)
    ensures
        node_set_contents(*final(set)) == node_set_contents(*old(set)).insert(node),
        added == !node_set_contents(*old(set)).contains(node),
{
    set.nodes.insert(node)
}

/// Calls `hashbrown::HashSet::contains`, which says whether the set holds a value.
#[verifier::external_body]
pub(crate) fn has_node(set: &NodeSet, node: u32) -> (found: bool)
    ensures
        found == node_set_contents(*set).contains(node),
{
    set.nodes.contains(&node)
}

/// Calls `hashbrown::HashSet::len`, which counts the elements of the set.
#[verifier::external_body]
pub(crate) fn node_count(set: &NodeSet) -> (count: usize)
    ensures
        count == node_set_contents(*set).len(),
{
    set.nodes.len()
}

} // verus!
