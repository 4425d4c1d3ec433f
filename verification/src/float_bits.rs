//! Single-precision numbers, held as their bit patterns.
//!
//! A pattern is a sign bit, eight bits of exponent and 23 bits of fraction. Without
//! the sign bit, patterns are ordered as the absolute values they stand for.
use vstd::prelude::*;

verus! {

/// The pattern of positive infinity.
pub const INFINITY: u32 = 0x7f80_0000;

/// The pattern of negative infinity.
pub const NEG_INFINITY: u32 = 0xff80_0000;

/// The sign bit.
pub const SIGN: u32 = 0x8000_0000;

/// The pattern without its sign bit.
pub open spec fn magnitude(bits: u32) -> int {
    bits as int % 0x8000_0000
}

/// The pattern stands for no number.
pub open spec fn is_nan(bits: u32) -> bool {
    magnitude(bits) > INFINITY
}

/// The pattern stands for a number that is not infinite.
pub open spec fn finite(bits: u32) -> bool {
    magnitude(bits) < INFINITY
}

/// A number that orders patterns as the numbers they stand for; both zeros have 0.
pub open spec fn rank(bits: u32) -> int {
    if bits >= SIGN {
        -magnitude(bits)
    } else {
        magnitude(bits)
    }
}

/// The number of the left pattern is smaller than that of the right one.
pub open spec fn less(left: u32, right: u32) -> bool {
    !is_nan(left) && !is_nan(right) && rank(left) < rank(right)
}

/// The patterns stand for the same number; both zeros are one.
pub open spec fn equal(left: u32, right: u32) -> bool {
    !is_nan(left) && !is_nan(right) && rank(left) == rank(right)
}

/// A number that orders all patterns: negative before positive ones, the negative
/// ones by falling and the positive ones by rising magnitude.
pub open spec fn total_key(bits: u32) -> int {
    if bits >= SIGN {
        0xffff_ffff - bits
    } else {
        bits + 0x8000_0000
    }
}

/// Whether the pattern stands for a number that is not infinite.
pub fn is_finite(bits: u32) -> (result: bool)
    ensures
        result == finite(bits),
{
    bits % SIGN < INFINITY
}

/// Whether the pattern stands for a number.
pub fn is_number(bits: u32) -> (result: bool)
    ensures
        result == !is_nan(bits),
{
    bits % SIGN <= INFINITY
}

/// Whether the number of the left pattern is smaller than that of the right one.
pub fn is_less(left: u32, right: u32) -> (result: bool)
    ensures
        result == less(left, right),
{
    let left_magnitude: u32 = left % SIGN;
    let right_magnitude: u32 = right % SIGN;
    if left_magnitude > INFINITY || right_magnitude > INFINITY {
        return false;
    }
    if left >= SIGN {
        if right >= SIGN {
            left_magnitude > right_magnitude
        } else {
            left_magnitude > 0 || right_magnitude > 0
        }
    } else if right >= SIGN {
        false
    } else {
        left_magnitude < right_magnitude
    }
}

/// Whether the patterns stand for the same number.
pub fn is_equal(left: u32, right: u32) -> (result: bool)
    ensures
        result == equal(left, right),
{
    if !is_number(left) || !is_number(right) {
        return false;
    }
    left == right || (left % SIGN == 0 && right % SIGN == 0)
}

/// The numbers of two lists are the same, one by one.
pub open spec fn all_equal(left: Seq<u32>, right: Seq<u32>) -> bool {
    left.len() == right.len() && forall|at: int|
        0 <= at < left.len() ==> equal(#[trigger] left[at], right[at])
}

/// Whether the numbers of two lists are the same, one by one.
pub fn are_equal(left: &[u32], right: &[u32]) -> (result: bool)
    ensures
        result == all_equal(left@, right@),
{
    if left.len() != right.len() {
        return false;
    }
    let mut at: usize = 0;
    while at < left.len()
        invariant
            at <= left@.len(),
            left@.len() == right@.len(),
            forall|i: int| 0 <= i < at ==> equal(#[trigger] left@[i], right@[i]),
        decreases left@.len() - at,
    {
        if !is_equal(left[at], right[at]) {
            assert(!equal(left@[at as int], right@[at as int]));
            return false;
        }
        at += 1;
    }
    true
}

/// The number that orders all patterns.
pub fn order_key(bits: u32) -> (key: u32)
    ensures
        key == total_key(bits),
{
    if bits >= SIGN {
        0xffff_ffff - bits
    } else {
        bits + 0x8000_0000
    }
}

/// The order of all patterns agrees with that of the numbers, apart from the two zeros.
pub proof fn lemma_total_order_refines_less(left: u32, right: u32)
    requires
        less(left, right),
    ensures
        total_key(left) < total_key(right),
{
}

/// Different patterns stand at different places of the order of all patterns.
pub proof fn lemma_total_key_injective(left: u32, right: u32)
    requires
        total_key(left) == total_key(right),
    ensures
        left == right,
{
}

/// How patterns compare: two patterns without a sign bit, up to infinity, as the integers they
/// are; a number and its negative the other way round; a negative number that is not zero is
/// less than every number without a sign bit; and what stands for no number is not less than
/// anything, nor anything less than it.
pub proof fn lemma_less_by_patterns(left: u32, right: u32)
    ensures
        left <= INFINITY && right <= INFINITY ==> (less(left, right) <==> left < right),
        left <= INFINITY && right <= INFINITY ==> (less(
            (left + SIGN) as u32,
            (right + SIGN) as u32,
        ) <==> right < left),
        0 < left <= INFINITY && right <= INFINITY ==> less((left + SIGN) as u32, right),
        left <= INFINITY && right <= INFINITY ==> !less(left, (right + SIGN) as u32),
        INFINITY < left < SIGN || left > INFINITY + SIGN ==> !less(left, right) && !less(
            right,
            left,
        ) && is_nan(left),
        finite(left) <==> !is_nan(left) && left != INFINITY && left != NEG_INFINITY,
        equal(left, right) <==> !is_nan(left) && !is_nan(right) && !less(left, right) && !less(
            right,
            left,
        ),
{
}

/// Lists of numbers that differ in length or in any number are not the same.
pub proof fn lemma_lists_differ(left: Seq<u32>, right: Seq<u32>, at: int)
    requires
        0 <= at < left.len(),
    ensures
        left.len() != right.len() ==> !all_equal(left, right),
        at < right.len() && !equal(left[at], right[at]) ==> !all_equal(left, right),
        left == right && (forall|place: int|
            0 <= place < left.len() ==> !is_nan(#[trigger] left[place])) ==> all_equal(left, right),
{
}

} // verus!
