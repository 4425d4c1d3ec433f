//! Ranking positions by scores.
use crate::float_bits;
use crate::heap::MaxHeap;
use vstd::multiset::Multiset;
use vstd::prelude::*;

verus! {

/// Position `left` comes before position `right`: it has the smaller score in the
/// order of all bit patterns, or the same score and stands first.
pub open spec fn comes_before(scores: Seq<u32>, left: int, right: int) -> bool {
    let left_key = float_bits::total_key(scores[left]);
    let right_key = float_bits::total_key(scores[right]);
    left_key < right_key || (left_key == right_key && left < right)
}

/// `order` holds every position of `scores`, each before those that it comes before.
pub open spec fn is_ranking(scores: Seq<u32>, order: Seq<usize>) -> bool {
    &&& order.len() == scores.len()
    &&& forall|at: int| 0 <= at < order.len() ==> #[trigger] order[at] < scores.len()
    &&& forall|left: int, right: int|
        0 <= left < right < order.len() ==> comes_before(
            scores,
            #[trigger] order[left] as int,
            #[trigger] order[right] as int,
        )
}

/// A ranking holds every position exactly once.
pub proof fn lemma_ranking_is_permutation(scores: Seq<u32>, order: Seq<usize>)
    requires
        is_ranking(scores, order),
        scores.len() <= usize::MAX,
    ensures
        order.no_duplicates(),
        forall|at: usize| at < scores.len() ==> #[trigger] order.contains(at),
{
    assert forall|i: int, j: int|
        0 <= i < order.len() && 0 <= j < order.len() && i != j implies order[i] != order[j] by {
        if i < j {
            assert(comes_before(scores, order[i] as int, order[j] as int));
        } else {
            assert(comes_before(scores, order[j] as int, order[i] as int));
        }
    }
    let ints = order.map_values(|at: usize| at as int);
    let range = vstd::set_lib::set_int_range(0, scores.len() as int);
    vstd::set_lib::lemma_int_range(0, scores.len() as int);
    assert(ints.no_duplicates());
    ints.unique_seq_to_set();
    assert(ints.to_set().subset_of(range)) by {
        assert forall|value: int| ints.to_set().contains(value) implies range.contains(value) by {
            let at = choose|at: int| 0 <= at < ints.len() && ints[at] == value;
            assert(order[at] < scores.len());
        }
    }
    vstd::set_lib::lemma_subset_equality(ints.to_set(), range);
    assert forall|at: usize| at < scores.len() implies #[trigger] order.contains(at) by {
        assert(range.contains(at as int));
        let place = choose|place: int| 0 <= place < ints.len() && ints[place] == at as int;
        assert(order[place] == at);
    }
}

/// Scores have one ranking.
pub proof fn lemma_ranking_is_unique(scores: Seq<u32>, left: Seq<usize>, right: Seq<usize>)
    requires
        is_ranking(scores, left),
        is_ranking(scores, right),
        scores.len() <= usize::MAX,
    ensures
        left == right,
{
    lemma_rankings_agree(scores, left, right, scores.len() as int);
    assert(left.take(scores.len() as int) =~= left);
    assert(right.take(scores.len() as int) =~= right);
}

/// Two rankings agree on their first `count` positions.
proof fn lemma_rankings_agree(scores: Seq<u32>, left: Seq<usize>, right: Seq<usize>, count: int)
    requires
        is_ranking(scores, left),
        is_ranking(scores, right),
        scores.len() <= usize::MAX,
        0 <= count <= scores.len(),
    ensures
        left.take(count) == right.take(count),
    decreases count,
{
    if count > 0 {
        let at = count - 1;
        lemma_rankings_agree(scores, left, right, at);
        lemma_ranking_is_permutation(scores, left);
        lemma_ranking_is_permutation(scores, right);
        if left[at] != right[at] {
            assert(right.contains(left[at]));
            assert(left.contains(right[at]));
            let i = choose|i: int| 0 <= i < right.len() && right[i] == left[at];
            let j = choose|j: int| 0 <= j < left.len() && left[j] == right[at];
            if i < at {
                assert(left.take(at)[i] == right.take(at)[i]);
                assert(left[i] == left[at]);
            }
            if j < at {
                assert(left.take(at)[j] == right.take(at)[j]);
                assert(right[j] == right[at]);
            }
            assert(comes_before(scores, right[at] as int, right[i] as int));
            assert(comes_before(scores, left[at] as int, left[j] as int));
        }
        assert(left.take(count) =~= left.take(at).push(left[at]));
        assert(right.take(count) =~= right.take(at).push(right[at]));
    } else {
        assert(left.take(0) =~= right.take(0));
    }
}

/// The key by which a position is ranked.
spec fn position_key(scores: Seq<u32>, at: int) -> int {
    float_bits::total_key(scores[at]) * 0x1_0000_0000_0000_0000 + at
}

/// The keys of the first `count` positions.
spec fn all_keys(scores: Seq<u32>, count: int) -> Seq<u128> {
    Seq::new(count as nat, |at: int| position_key(scores, at) as u128)
}

/// Ranks the positions of `scores`.
pub fn rank_positions(scores: &[u32]) -> (order: Vec<usize>)
    ensures
        is_ranking(scores@, order@),
{
    let count: usize = scores.len();
    let mut heap = MaxHeap::new();
    let mut at: usize = 0;
    assert(all_keys(scores@, 0) =~= Seq::<u128>::empty());
    proof {
        Seq::<u128>::empty().to_multiset_ensures();
        assert(Seq::<u128>::empty().to_multiset() =~= Multiset::<u128>::empty());
    }
    while at < count
        invariant
            at <= count,
            count == scores@.len(),
            heap.wf(),
            heap@ == all_keys(scores@, at as int).to_multiset(),
        decreases count - at,
    {
        let key: u128 = float_bits::order_key(scores[at]) as u128 * 0x1_0000_0000_0000_0000
            + at as u128;
        heap.push(key);
        proof {
            let before = all_keys(scores@, at as int);
            let after = all_keys(scores@, at + 1);
            assert(key == position_key(scores@, at as int));
            assert(after =~= before.push(key));
            before.to_multiset_ensures();
        }
        at += 1;
    }
    let ghost keys = all_keys(scores@, count as int);
    proof {
        lemma_keys(scores@, count as int);
        keys.to_multiset_ensures();
    }
    let mut falling: Vec<usize> = Vec::new();
    let mut left: usize = count;
    while left > 0
        invariant
            left <= count,
            count == scores@.len(),
            count <= usize::MAX,
            heap.wf(),
            heap@.len() == left,
            falling@.len() == count - left,
            forall|key: u128| #[trigger]
                heap@.contains(key) ==> heap@.count(key) == 1 && key % 0x1_0000_0000_0000_0000
                    < count && key == position_key(
                    scores@,
                    (key % 0x1_0000_0000_0000_0000) as int,
                ),
            forall|i: int| 0 <= i < falling@.len() ==> #[trigger] falling@[i] < count,
            forall|i: int, key: u128|
                #![trigger falling@[i], heap@.contains(key)]
                0 <= i < falling@.len() && heap@.contains(key) ==> key < position_key(
                    scores@,
                    falling@[i] as int,
                ),
            forall|i: int, j: int|
                0 <= i < j < falling@.len() ==> position_key(
                    scores@,
                    #[trigger] falling@[j] as int,
                ) < position_key(scores@, #[trigger] falling@[i] as int),
        decreases left,
    {
        let ghost before = heap@;
        let ghost done = falling@;
        match heap.pop() {
            Some(key) => {
                let position: usize = (key % 0x1_0000_0000_0000_0000) as usize;
                falling.push(position);
                proof {
                    assert(before.contains(key));
                    assert(key == position_key(scores@, position as int));
                    assert forall|other: u128| #[trigger] heap@.contains(other) implies heap@.count(
                        other,
                    ) == 1 && other < key && before.contains(other) by {
                        assert(before.contains(other));
                        assert(before.count(other) == 1);
                    }
                    assert forall|i: int, other: u128|
                        #![trigger falling@[i], heap@.contains(other)]
                        0 <= i < falling@.len() && heap@.contains(other) implies other
                        < position_key(scores@, falling@[i] as int) by {
                        if i < done.len() {
                            assert(done[i] == falling@[i]);
                            assert(before.contains(other));
                        }
                    }
                    assert forall|i: int, j: int| 0 <= i < j < falling@.len() implies position_key(
                        scores@,
                        #[trigger] falling@[j] as int,
                    ) < position_key(scores@, #[trigger] falling@[i] as int) by {
                        assert(done[i] == falling@[i]);
                        if j < done.len() {
                            assert(done[j] == falling@[j]);
                        }
                    }
                }
            },
            None => {},
        }
        left -= 1;
    }
    let mut order: Vec<usize> = Vec::new();
    let mut rest: usize = count;
    while rest > 0
        invariant
            rest <= count,
            falling@.len() == count,
            order@.len() == count - rest,
            forall|i: int| 0 <= i < order@.len() ==> #[trigger] order@[i] == falling@[count - 1 - i],
        decreases rest,
    {
        order.push(falling[rest - 1]);
        rest -= 1;
    }
    proof {
        assert forall|i: int, j: int| 0 <= i < j < order@.len() implies comes_before(
            scores@,
            #[trigger] order@[i] as int,
            #[trigger] order@[j] as int,
        ) by {
            let a = falling@[count - 1 - i];
            let b = falling@[count - 1 - j];
            assert(position_key(scores@, a as int) < position_key(scores@, b as int));
        }
    }
    order
}

/// The keys of the positions are distinct and tell their position.
proof fn lemma_keys(scores: Seq<u32>, count: int)
    requires
        0 <= count <= scores.len(),
        count <= usize::MAX,
    ensures
        all_keys(scores, count).to_multiset().len() == count,
        forall|key: u128| #[trigger]
            all_keys(scores, count).to_multiset().contains(key) ==> all_keys(
                scores,
                count,
            ).to_multiset().count(key) == 1 && key % 0x1_0000_0000_0000_0000 < count && key
                == position_key(scores, (key % 0x1_0000_0000_0000_0000) as int),
{
    let keys = all_keys(scores, count);
    keys.to_multiset_ensures();
    assert forall|i: int, j: int| 0 <= i < j < keys.len() implies keys[i] != keys[j] by {}
    assert(keys.no_duplicates());
    keys.lemma_multiset_has_no_duplicates();
    assert forall|key: u128| #[trigger] keys.to_multiset().contains(key) implies key
        % 0x1_0000_0000_0000_0000 < count && key == position_key(
        scores,
        (key % 0x1_0000_0000_0000_0000) as int,
    ) by {
        assert(keys.contains(key));
        let at = choose|at: int| 0 <= at < keys.len() && keys[at] == key;
        assert(key == position_key(scores, at));
    }
}

/// A ranking goes by the numbers that the scores stand for: no position has a smaller score
/// than one before it, and of positions with the same score the lower stands first.
pub proof fn lemma_ranking_rises(scores: Seq<u32>, order: Seq<usize>, first: int, second: int)
    requires
        is_ranking(scores, order),
        0 <= first < second < order.len(),
    ensures
        !float_bits::less(scores[order[second] as int], scores[order[first] as int]),
        scores[order[first] as int] == scores[order[second] as int] ==> order[first]
            < order[second],
        order[first] != order[second],
        order.len() == scores.len(),
        order[first] < scores.len(),
        order[second] < scores.len(),
{
    let left = scores[order[second] as int];
    let right = scores[order[first] as int];
    assert(comes_before(scores, order[first] as int, order[second] as int));
    if float_bits::less(left, right) {
        float_bits::lemma_total_order_refines_less(left, right);
    }
}

} // verus!
