//! A binary max-heap of keys.
use vstd::multiset::Multiset;
use vstd::prelude::*;

verus! {

/// Keys from which the largest can be taken.
#[derive(Debug)]
pub struct MaxHeap {
    items: Vec<u128>,
}

impl View for MaxHeap {
    type V = Multiset<u128>;

    closed spec fn view(&self) -> Multiset<u128> {
        self.items@.to_multiset()
    }
}

/// Position `child` is no larger than its parent.
spec fn child_ordered(items: Seq<u128>, child: int) -> bool {
    items[child] <= items[(child - 1) / 2]
}

/// Every position but the first, and but `hole`, is no larger than its parent;
/// the children of `hole` are no larger than the parent of `hole`.
spec fn ordered_below(items: Seq<u128>, hole: int) -> bool {
    &&& forall|child: int|
        0 < child < items.len() && child != hole ==> #[trigger] child_ordered(items, child)
    &&& forall|child: int|
        0 < hole && hole < child < items.len() && (child - 1) / 2 == hole
            ==> #[trigger] items[child] <= items[(hole - 1) / 2]
}

/// Every position but the first, and but the children of `hole`, is no larger
/// than its parent; the children of `hole` are no larger than the parent of `hole`.
spec fn ordered_above(items: Seq<u128>, hole: int) -> bool {
    &&& forall|child: int|
        0 < child < items.len() && (child - 1) / 2 != hole ==> #[trigger] child_ordered(
            items,
            child,
        )
    &&& forall|child: int|
        0 < hole && hole < child < items.len() && (child - 1) / 2 == hole
            ==> #[trigger] items[child] <= items[(hole - 1) / 2]
}

/// Exchanging two items keeps the collection.
proof fn lemma_swap_keeps_items(items: Seq<u128>, left: int, right: int)
    requires
        0 <= left < items.len(),
        0 <= right < items.len(),
    ensures
        items.update(left, items[right]).update(right, items[left]).to_multiset()
            == items.to_multiset(),
{
    let middle = items.update(left, items[right]);
    lemma_update_items(items, left, items[right]);
    lemma_update_items(middle, right, items[left]);
    items.to_multiset_ensures();
    assert(items.contains(items[left]));
    assert(items.contains(items[right]));
    assert(middle.update(right, items[left]).to_multiset() =~= items.to_multiset());
}

/// Overwriting an item takes it out and puts the new one in.
proof fn lemma_update_items(items: Seq<u128>, at: int, value: u128)
    requires
        0 <= at < items.len(),
    ensures
        items.update(at, value).to_multiset() == items.to_multiset().remove(items[at]).insert(
            value,
        ),
{
    let updated = items.update(at, value);
    assert(updated.remove(at) =~= items.remove(at));
    items.to_multiset_ensures();
    updated.to_multiset_ensures();
    assert(updated.contains(updated[at]));
    assert(updated.remove(at).to_multiset() == updated.to_multiset().remove(value));
    assert(items.remove(at).to_multiset() == items.to_multiset().remove(items[at]));
    assert(updated.to_multiset() =~= updated.to_multiset().remove(value).insert(value));
}

/// The first item of an ordered heap is the largest.
proof fn lemma_root_is_largest(items: Seq<u128>, at: int)
    requires
        0 <= at < items.len(),
        forall|child: int| 0 < child < items.len() ==> #[trigger] child_ordered(items, child),
    ensures
        items[at] <= items[0],
    decreases at,
{
    if at > 0 {
        assert(child_ordered(items, at));
        lemma_root_is_largest(items, (at - 1) / 2);
    }
}

impl MaxHeap {
    /// The items stand in heap order.
    pub closed spec fn wf(self) -> bool {
        forall|child: int|
            0 < child < self.items@.len() ==> #[trigger] child_ordered(self.items@, child)
    }

    pub fn new() -> (heap: Self)
        ensures
            heap.wf(),
            heap@ == Multiset::<u128>::empty(),
    {
        let heap = MaxHeap { items: Vec::new() };
        proof {
            heap.items@.to_multiset_ensures();
            assert(heap@.len() == 0);
            assert(heap@ =~= Multiset::<u128>::empty());
        }
        heap
    }

    /// Adds a key.
    pub fn push(&mut self, key: u128)
        requires
            old(self).wf(),
        ensures
            final(self).wf(),
            final(self)@ == old(self)@.insert(key),
    {
        let ghost before = self.items@;
        self.items.push(key);
        proof {
            before.to_multiset_ensures();
            assert forall|child: int| 0 < child < before.len() implies #[trigger] child_ordered(
                self.items@,
                child,
            ) by {
                assert(child_ordered(before, child));
            }
        }
        let mut hole: usize = self.items.len() - 1;
        while hole > 0 && self.items[hole] > self.items[(hole - 1) / 2]
            invariant
                hole < self.items@.len(),
                ordered_below(self.items@, hole as int),
                self.items@.to_multiset() == before.to_multiset().insert(key),
            decreases hole,
        {
            let parent: usize = (hole - 1) / 2;
            let ghost items = self.items@;
            self.swap(hole, parent);
            proof {
                assert forall|child: int|
                    0 < child < items.len() && child != parent implies #[trigger] child_ordered(
                    self.items@,
                    child,
                ) by {
                    if child != hole {
                        assert(child_ordered(items, child));
                        if (child - 1) / 2 == hole {
                            assert(items[child] <= items[parent as int]);
                        }
                    }
                }
                assert forall|child: int|
                    0 < parent && parent < child < items.len() && (child - 1) / 2
                        == parent implies #[trigger] self.items@[child] <= self.items@[(parent - 1)
                    / 2] by {
                    assert(child_ordered(items, parent as int));
                    if child != hole {
                        assert(child_ordered(items, child));
                    }
                }
            }
            hole = parent;
        }
        proof {
            assert forall|child: int| 0 < child < self.items@.len() implies #[trigger] child_ordered(
                self.items@,
                child,
            ) by {}
        }
    }

    /// Takes the largest key out.
    pub fn pop(&mut self) -> (key: Option<u128>)
        requires
            old(self).wf(),
        ensures
            final(self).wf(),
            key is None <==> old(self)@.len() == 0,
            key is None ==> final(self)@ == old(self)@,
            key is Some ==> old(self)@.contains(key->0) && final(self)@ == old(self)@.remove(
                key->0,
            ),
            key is Some ==> forall|other: u128| #[trigger]
                old(self)@.contains(other) ==> other <= key->0,
    {
        let ghost before = self.items@;
        proof {
            before.to_multiset_ensures();
        }
        if self.items.len() == 0 {
            return None;
        }
        let key: u128 = self.items.swap_remove(0);
        proof {
            assert(before.contains(before[0]));
            assert forall|other: u128| before.to_multiset().contains(other) implies other <= key by {
                let at = choose|i: int| 0 <= i < before.len() && before[i] == other;
                lemma_root_is_largest(before, at);
            }
            let moved = before.update(0, before.last());
            lemma_update_items(before, 0, before.last());
            moved.to_multiset_ensures();
            assert(moved.remove(moved.len() - 1) =~= moved.drop_last());
            assert(before.contains(before.last()));
            if before.len() > 1 {
                assert(before.remove(0).contains(before.last())) by {
                    assert(before.remove(0)[before.len() - 2] == before.last());
                }
                before.remove(0).to_multiset_ensures();
                assert(self.items@.to_multiset() =~= before.to_multiset().remove(key));
            } else {
                assert(self.items@ =~= before.remove(0));
            }
            assert(ordered_above(self.items@, 0)) by {
                assert forall|child: int|
                    0 < child < self.items@.len() && (child - 1) / 2
                        != 0 implies #[trigger] child_ordered(self.items@, child) by {
                    assert(child_ordered(before, child));
                }
            }
        }
        self.sift_down();
        Some(key)
    }

    /// Restores the order after the first item was replaced.
    fn sift_down(&mut self)
        requires
            ordered_above(old(self).items@, 0),
        ensures
            final(self).wf(),
            final(self)@ == old(self)@,
    {
        let ghost before = self.items@;
        let mut hole: usize = 0;
        let len: usize = self.items.len();
        while hole < len / 2
            invariant
                self.items@.len() == len,
                hole <= len,
                ordered_above(self.items@, hole as int),
                self.items@.to_multiset() == before.to_multiset(),
            ensures
                self.items@.to_multiset() == before.to_multiset(),
                forall|child: int|
                    0 < child < self.items@.len() ==> #[trigger] child_ordered(self.items@, child),
            decreases len - hole,
        {
            let ghost items = self.items@;
            let left: usize = 2 * hole + 1;
            let mut largest: usize = left;
            if left + 1 < len && self.items[left + 1] > self.items[left] {
                largest = left + 1;
            }
            if self.items[largest] <= self.items[hole] {
                proof {
                    assert forall|child: int| 0 < child < items.len() implies #[trigger] child_ordered(
                        items,
                        child,
                    ) by {
                        if (child - 1) / 2 == hole {
                            assert(child == left || child == left + 1);
                        }
                    }
                }
                break;
            }
            self.swap(hole, largest);
            proof {
                assert forall|child: int|
                    0 < child < items.len() && (child - 1) / 2
                        != largest implies #[trigger] child_ordered(self.items@, child) by {
                    if (child - 1) / 2 == hole {
                        assert(child == left || child == left + 1);
                    } else {
                        assert(child_ordered(items, child));
                        if child == hole {
                            assert(items[largest as int] <= items[(hole - 1) / 2]);
                        }
                    }
                }
                assert forall|child: int|
                    largest < child < items.len() && (child - 1) / 2
                        == largest implies #[trigger] self.items@[child] <= self.items@[(largest - 1)
                    / 2] by {
                    assert(child_ordered(items, child));
                }
            }
            hole = largest;
        }
    }

    /// Exchanges two items.
    fn swap(&mut self, left: usize, right: usize)
        requires
            left < old(self).items@.len(),
            right < old(self).items@.len(),
        ensures
            final(self).items@ == old(self).items@.update(left as int, old(self).items@[right as int]).update(
                right as int,
                old(self).items@[left as int],
            ),
            final(self)@ == old(self)@,
    {
        let ghost items = self.items@;
        let first: u128 = self.items[left];
        let second: u128 = self.items[right];
        self.items[left] = second;
        self.items[right] = first;
        proof {
            lemma_swap_keeps_items(items, left as int, right as int);
        }
    }
}

} // verus!
