//! Operations on vectors of small integers, lane by lane.
use crate::bytes;
use vstd::prelude::*;

verus! {

/// The nibble of a number at an index, least significant first.
pub open spec fn nibble(value: nat, index: nat) -> nat
    decreases index,
{
    if index == 0 {
        value % 16
    } else {
        nibble(value / 16, (index - 1) as nat)
    }
}

/// The first `count` nibbles of a number.
fn nibbles(value: u32, count: usize) -> (found: Vec<i8>)
    ensures
        found@.len() == count,
        forall|at: int|
            0 <= at < count ==> #[trigger] found@[at] == nibble(value as nat, at as nat),
        forall|at: int| 0 <= at < count ==> 0 <= #[trigger] found@[at] <= 15,
{
    let mut found: Vec<i8> = Vec::new();
    let mut rest: u32 = value;
    while found.len() < count
        invariant
            found@.len() <= count,
            forall|at: int|
                0 <= at < found@.len() ==> #[trigger] found@[at] == nibble(
                    value as nat,
                    at as nat,
                ),
            forall|at: int| 0 <= at < found@.len() ==> 0 <= #[trigger] found@[at] <= 15,
            forall|further: nat| #[trigger]
                nibble(rest as nat, further) == nibble(
                    value as nat,
                    (found@.len() + further) as nat,
                ),
        decreases count - found@.len(),
    {
        let ghost done = found@.len();
        let ghost before = rest;
        assert(nibble(rest as nat, 0) == nibble(value as nat, (done + 0) as nat));
        found.push((rest % 16) as i8);
        rest = rest / 16;
        proof {
            assert forall|further: nat| #[trigger]
                nibble(rest as nat, further) == nibble(
                    value as nat,
                    (found@.len() + further) as nat,
                ) by {
                assert(nibble(before as nat, further + 1) == nibble(
                    value as nat,
                    (done + (further + 1)) as nat,
                ));
            }
        }
    }
    found
}

/// Expand the four unsigned nibbles in `packed`, least significant first, and repeat
/// the resulting four bytes across the vector. Each output lane is in `0..=15`.
pub fn splat_u4x4(packed: u16) -> (lanes: [i8; 32])
    ensures
        forall|lane: int|
            0 <= lane < 32 ==> #[trigger] lanes@[lane] == nibble(
                packed as nat,
                (lane % 4) as nat,
            ),
        forall|lane: int| 0 <= lane < 32 ==> 0 <= #[trigger] lanes@[lane] <= 15,
{
    let found = nibbles(packed as u32, 4);
    let mut lanes: [i8; 32] = [0; 32];
    let mut lane: usize = 0;
    while lane < 32
        invariant
            lane <= 32,
            found@.len() == 4,
            forall|at: int| 0 <= at < 4 ==> 0 <= #[trigger] found@[at] <= 15,
            forall|at: int| 0 <= at < lane ==> #[trigger] lanes@[at] == found@[at % 4],
        decreases 32 - lane,
    {
        lanes[lane] = found[lane % 4];
        lane += 1;
    }
    proof {
        assert forall|at: int| 0 <= at < 32 implies #[trigger] lanes@[at] == nibble(
            packed as nat,
            (at % 4) as nat,
        ) by {
            assert(found@[at % 4] == nibble(packed as nat, (at % 4) as nat));
        }
    }
    lanes
}

/// Expand the eight unsigned nibbles in `packed`, least significant first, and repeat
/// the resulting eight bytes across the vector. Each output lane is in `0..=15`.
pub fn splat_u4x8(packed: u32) -> (lanes: [i8; 64])
    ensures
        forall|lane: int|
            0 <= lane < 64 ==> #[trigger] lanes@[lane] == nibble(
                packed as nat,
                (lane % 8) as nat,
            ),
        forall|lane: int| 0 <= lane < 64 ==> 0 <= #[trigger] lanes@[lane] <= 15,
{
    let found = nibbles(packed, 8);
    let mut lanes: [i8; 64] = [0; 64];
    let mut lane: usize = 0;
    while lane < 64
        invariant
            lane <= 64,
            found@.len() == 8,
            forall|at: int| 0 <= at < 8 ==> 0 <= #[trigger] found@[at] <= 15,
            forall|at: int| 0 <= at < lane ==> #[trigger] lanes@[at] == found@[at % 8],
        decreases 64 - lane,
    {
        lanes[lane] = found[lane % 8];
        lane += 1;
    }
    proof {
        assert forall|at: int| 0 <= at < 64 implies #[trigger] lanes@[at] == nibble(
            packed as nat,
            (at % 8) as nat,
        ) by {
            assert(found@[at % 8] == nibble(packed as nat, (at % 8) as nat));
        }
    }
    lanes
}

/// The nearest number in the range of an `i16`.
pub open spec fn saturated(value: int) -> int {
    if value < i16::MIN {
        i16::MIN as int
    } else if value > i16::MAX {
        i16::MAX as int
    } else {
        value
    }
}

/// Multiply unsigned bytes by signed bytes, add adjacent products, and saturate
/// each sum to `i16`. Output lane `i` uses input lanes `2 * i` and `2 * i + 1`.
pub fn multiply_sum_saturating_u8x32_i8x32(a: &[u8; 32], b: &[i8; 32]) -> (sums: [i16; 16])
    ensures
        forall|lane: int|
            0 <= lane < 16 ==> #[trigger] sums@[lane] == saturated(
                a@[2 * lane] * b@[2 * lane] + a@[2 * lane + 1] * b@[2 * lane + 1],
            ),
{
    let mut sums: [i16; 16] = [0; 16];
    let mut lane: usize = 0;
    while lane < 16
        invariant
            lane <= 16,
            forall|at: int|
                0 <= at < lane ==> #[trigger] sums@[at] == saturated(
                    a@[2 * at] * b@[2 * at] + a@[2 * at + 1] * b@[2 * at + 1],
                ),
        decreases 16 - lane,
    {
        let a0: i32 = a[2 * lane] as i32;
        let a1: i32 = a[2 * lane + 1] as i32;
        let b0: i32 = b[2 * lane] as i32;
        let b1: i32 = b[2 * lane + 1] as i32;
        assert(-32640 <= a0 * b0 <= 32385 && -32640 <= a1 * b1 <= 32385) by (nonlinear_arith)
            requires
                0 <= a0 <= 255,
                0 <= a1 <= 255,
                -128 <= b0 <= 127,
                -128 <= b1 <= 127,
        ;
        let sum: i32 = a0 * b0 + a1 * b1;
        let bounded: i32 = if sum < -32768 {
            -32768
        } else if sum > 32767 {
            32767
        } else {
            sum
        };
        sums[lane] = bounded as i16;
        lane += 1;
    }
    sums
}

/// The number that two's complement addition of two `i32` gives.
pub open spec fn wrapped(sum: int) -> int {
    if sum < i32::MIN {
        sum + 0x1_0000_0000
    } else if sum > i32::MAX {
        sum - 0x1_0000_0000
    } else {
        sum
    }
}

/// Sum adjacent `i32` lanes with wrapping arithmetic: output lane `i` is the sum of
/// input lanes `2 * i` and `2 * i + 1`.
pub fn sum_adjacent_i32x16(values: &[i32; 16]) -> (sums: [i32; 8])
    ensures
        forall|lane: int|
            0 <= lane < 8 ==> #[trigger] sums@[lane] == wrapped(
                values@[2 * lane] + values@[2 * lane + 1],
            ),
{
    let mut sums: [i32; 8] = [0; 8];
    let mut lane: usize = 0;
    while lane < 8
        invariant
            lane <= 8,
            forall|at: int|
                0 <= at < lane ==> #[trigger] sums@[at] == wrapped(
                    values@[2 * at] + values@[2 * at + 1],
                ),
        decreases 8 - lane,
    {
        sums[lane] = values[2 * lane].wrapping_add(values[2 * lane + 1]);
        lane += 1;
    }
    sums
}

/// The smaller of a count and the number of lanes.
pub open spec fn at_most(count: int, lanes: int) -> int {
    if count < lanes {
        count
    } else {
        lanes
    }
}

/// Load the first `first` of 16 bytes into an unsigned 128-bit integer: the first byte
/// occupies the lowest 8 bits, the next byte bits 8 to 15, and so on. Bytes at and
/// after `first` are not read.
pub fn load_first_of_16_bytes(source: &[u8], first: usize) -> (value: u128)
    requires
        at_most(first as int, 16) <= source@.len(),
    ensures
        value == bytes::le_value(source@.take(at_most(first as int, 16))),
{
    let count: usize = if first < 16 {
        first
    } else {
        16
    };
    let ghost read = source@.take(count as int);
    let mut value: u128 = 0;
    let mut at: usize = count;
    assert(read.skip(count as int) =~= Seq::<u8>::empty());
    while at > 0
        invariant
            at <= count <= 16,
            count <= source@.len(),
            read == source@.take(count as int),
            value == bytes::le_value(read.skip(at as int)),
        decreases at,
    {
        at -= 1;
        let ghost tail = read.skip(at as int);
        proof {
            assert(tail.skip(1) =~= read.skip(at + 1));
            bytes::lemma_le_value_bound(tail);
            lemma_sixteen_bytes(tail.len());
        }
        value = source[at] as u128 + 256 * value;
    }
    assert(read.skip(0) =~= read);
    value
}

/// At most 16 bytes hold a number below 2 to the power 128.
proof fn lemma_sixteen_bytes(width: nat)
    requires
        width <= 16,
    ensures
        bytes::byte_limit(width) <= 0x1_0000_0000_0000_0000_0000_0000_0000_0000,
{
    reveal_with_fuel(bytes::byte_limit, 17);
}

/// Load the first `first` of eight 16-bit words into a vector whose other lanes are
/// zero. Words at and after `first` are not read.
pub fn load_first_u16_of_16_bytes(source: &[u16], first: usize) -> (lanes: [u16; 8])
    requires
        at_most(first as int, 8) <= source@.len(),
    ensures
        forall|lane: int|
            0 <= lane < 8 ==> #[trigger] lanes@[lane] == if lane < first {
                source@[lane]
            } else {
                0
            },
{
    let count: usize = if first < 8 {
        first
    } else {
        8
    };
    let mut lanes: [u16; 8] = [0; 8];
    let mut lane: usize = 0;
    while lane < count
        invariant
            lane <= count <= 8,
            count <= source@.len(),
            forall|at: int|
                0 <= at < 8 ==> #[trigger] lanes@[at] == if at < lane {
                    source@[at]
                } else {
                    0
                },
        decreases count - lane,
    {
        lanes[lane] = source[lane];
        lane += 1;
    }
    lanes
}

/// Nibbles make up a number: the lowest is its rest by 16, and the others are those of the
/// quotient, one place on.
pub proof fn lemma_nibbles_make_number(value: nat)
    ensures
        nibble(value, 0) <= 15,
        value < 0x10000 ==> value == nibble(value, 0) + 16 * nibble(value, 1) + 256 * nibble(
            value,
            2,
        ) + 4096 * nibble(value, 3),
        value < 0x1_0000_0000 ==> value == nibble(value, 0) + 0x10 * nibble(value, 1) + 0x100
            * nibble(value, 2) + 0x1000 * nibble(value, 3) + 0x1_0000 * nibble(value, 4) + 0x10_0000
            * nibble(value, 5) + 0x100_0000 * nibble(value, 6) + 0x1000_0000 * nibble(value, 7),
{
    reveal_with_fuel(nibble, 9);
}

/// Saturating gives the nearest number that an `i16` can be.
pub proof fn lemma_saturated_is_nearest(value: int, other: int)
    requires
        i16::MIN <= other <= i16::MAX,
    ensures
        i16::MIN <= saturated(value) <= i16::MAX,
        value <= saturated(value) ==> saturated(value) - value <= other - value || other < value,
        value >= saturated(value) ==> value - saturated(value) <= value - other || other > value,
        i16::MIN <= value <= i16::MAX ==> saturated(value) == value,
{
}

/// Wrapping adds or takes away 2 to the power 32 to get a sum of two `i32` into their range.
pub proof fn lemma_wrapped_keeps_rest(left: i32, right: i32)
    ensures
        i32::MIN <= wrapped(left + right) <= i32::MAX,
        (wrapped(left + right) - (left + right)) % 0x1_0000_0000 == 0,
{
}

/// The smaller of a count and the number of lanes exceeds neither and is one of them.
pub proof fn lemma_at_most_is_least(count: int, lanes: int)
    ensures
        at_most(count, lanes) <= count,
        at_most(count, lanes) <= lanes,
        at_most(count, lanes) == count || at_most(count, lanes) == lanes,
{
}

} // verus!
