//! Little-endian integers and byte strings.
use byteorder::ByteOrder;
use byteorder::LittleEndian;
use byteorder::WriteBytesExt;
use vstd::prelude::*;

verus! {

/// The number that a little-endian byte string stands for.
pub open spec fn le_value(bytes: Seq<u8>) -> nat
    decreases bytes.len(),
{
    if bytes.len() == 0 {
        0
    } else {
        bytes[0] as nat + 256 * le_value(bytes.skip(1))
    }
}

/// The `width` low bytes of `value`, least significant byte first.
pub open spec fn le_bytes(value: nat, width: nat) -> Seq<u8>
    decreases width,
{
    if width == 0 {
        Seq::empty()
    } else {
        seq![(value % 256) as u8] + le_bytes(value / 256, (width - 1) as nat)
    }
}

/// 256 to the power `width`: one more than the largest number of `width` bytes.
pub open spec fn byte_limit(width: nat) -> nat
    decreases width,
{
    if width == 0 {
        1
    } else {
        256 * byte_limit((width - 1) as nat)
    }
}

/// The `u32` that starts at `offset`.
pub open spec fn u32_at(bytes: Seq<u8>, offset: int) -> u32 {
    le_value(bytes.subrange(offset, offset + 4)) as u32
}

/// The `u64` that starts at `offset`.
pub open spec fn u64_at(bytes: Seq<u8>, offset: int) -> u64 {
    le_value(bytes.subrange(offset, offset + 8)) as u64
}

/// Four-byte little-endian encodings of `values`, one after the other.
pub open spec fn u32s_bytes(values: Seq<u32>) -> Seq<u8>
    decreases values.len(),
{
    if values.len() == 0 {
        Seq::empty()
    } else {
        u32s_bytes(values.drop_last()) + le_bytes(values.last() as nat, 4)
    }
}

/// Eight-byte little-endian encodings of `values`, one after the other.
pub open spec fn u64s_bytes(values: Seq<u64>) -> Seq<u8>
    decreases values.len(),
{
    if values.len() == 0 {
        Seq::empty()
    } else {
        u64s_bytes(values.drop_last()) + le_bytes(values.last() as nat, 8)
    }
}

/// The limits of the two widths that the formats use.
pub proof fn lemma_byte_limits()
    ensures
        byte_limit(4) == 0x1_0000_0000,
        byte_limit(8) == 0x1_0000_0000_0000_0000,
{
    reveal_with_fuel(byte_limit, 9);
}

/// An encoding is as wide as it was asked to be.
pub proof fn lemma_le_bytes_len(value: nat, width: nat)
    ensures
        le_bytes(value, width).len() == width,
    decreases width,
{
    if width > 0 {
        lemma_le_bytes_len(value / 256, (width - 1) as nat);
    }
}

/// A byte string stands for a number below the limit of its length.
pub proof fn lemma_le_value_bound(bytes: Seq<u8>)
    ensures
        le_value(bytes) < byte_limit(bytes.len()),
    decreases bytes.len(),
{
    if bytes.len() > 0 {
        lemma_le_value_bound(bytes.skip(1));
    }
}

/// Decoding an encoding gives the number back.
pub proof fn lemma_value_of_bytes(value: nat, width: nat)
    requires
        value < byte_limit(width),
    ensures
        le_value(le_bytes(value, width)) == value,
    decreases width,
{
    lemma_le_bytes_len(value, width);
    if width > 0 {
        let rest = (width - 1) as nat;
        assert(value / 256 < byte_limit(rest));
        lemma_value_of_bytes(value / 256, rest);
        lemma_le_bytes_len(value / 256, rest);
        assert(le_bytes(value, width).skip(1) =~= le_bytes(value / 256, rest));
    }
}

/// Encoding what a byte string stands for gives the string back.
pub proof fn lemma_bytes_of_value(bytes: Seq<u8>)
    ensures
        le_bytes(le_value(bytes), bytes.len()) == bytes,
    decreases bytes.len(),
{
    if bytes.len() > 0 {
        let rest = bytes.skip(1);
        lemma_bytes_of_value(rest);
        let value = le_value(bytes);
        assert(value % 256 == bytes[0] as nat && value / 256 == le_value(rest));
        assert(le_bytes(value, bytes.len()) =~= bytes);
    } else {
        assert(le_bytes(le_value(bytes), bytes.len()) =~= bytes);
    }
}

/// What was written as a `u32` at `offset` is read there.
pub proof fn lemma_u32_at_written(bytes: Seq<u8>, offset: int, value: u32)
    requires
        0 <= offset,
        offset + 4 <= bytes.len(),
        bytes.subrange(offset, offset + 4) == le_bytes(value as nat, 4),
    ensures
        u32_at(bytes, offset) == value,
{
    lemma_byte_limits();
    lemma_value_of_bytes(value as nat, 4);
}

/// What was written as a `u64` at `offset` is read there.
pub proof fn lemma_u64_at_written(bytes: Seq<u8>, offset: int, value: u64)
    requires
        0 <= offset,
        offset + 8 <= bytes.len(),
        bytes.subrange(offset, offset + 8) == le_bytes(value as nat, 8),
    ensures
        u64_at(bytes, offset) == value,
{
    lemma_byte_limits();
    lemma_value_of_bytes(value as nat, 8);
}

/// Where two byte strings have the same `u32`, they have the same bytes.
pub proof fn lemma_same_u32(left: Seq<u8>, right: Seq<u8>, offset: int)
    requires
        0 <= offset,
        offset + 4 <= left.len(),
        offset + 4 <= right.len(),
        u32_at(left, offset) == u32_at(right, offset),
    ensures
        left.subrange(offset, offset + 4) == right.subrange(offset, offset + 4),
{
    let left_word = left.subrange(offset, offset + 4);
    let right_word = right.subrange(offset, offset + 4);
    lemma_byte_limits();
    lemma_le_value_bound(left_word);
    lemma_le_value_bound(right_word);
    lemma_bytes_of_value(left_word);
    lemma_bytes_of_value(right_word);
}

/// Where two byte strings have the same `u64`, they have the same bytes.
pub proof fn lemma_same_u64(left: Seq<u8>, right: Seq<u8>, offset: int)
    requires
        0 <= offset,
        offset + 8 <= left.len(),
        offset + 8 <= right.len(),
        u64_at(left, offset) == u64_at(right, offset),
    ensures
        left.subrange(offset, offset + 8) == right.subrange(offset, offset + 8),
{
    let left_word = left.subrange(offset, offset + 8);
    let right_word = right.subrange(offset, offset + 8);
    lemma_byte_limits();
    lemma_le_value_bound(left_word);
    lemma_le_value_bound(right_word);
    lemma_bytes_of_value(left_word);
    lemma_bytes_of_value(right_word);
}

/// The length of a run of `u32` encodings, and where each of them stands.
pub proof fn lemma_u32s_bytes(values: Seq<u32>)
    ensures
        u32s_bytes(values).len() == 4 * values.len(),
        forall|i: int|
            #![trigger values[i]]
            0 <= i < values.len() ==> u32s_bytes(values).subrange(4 * i, 4 * i + 4) == le_bytes(
                values[i] as nat,
                4,
            ),
    decreases values.len(),
{
    if values.len() > 0 {
        let front = values.drop_last();
        lemma_u32s_bytes(front);
        lemma_le_bytes_len(values.last() as nat, 4);
        assert forall|i: int| #![trigger values[i]] 0 <= i < values.len() implies u32s_bytes(
            values,
        ).subrange(4 * i, 4 * i + 4) == le_bytes(values[i] as nat, 4) by {
            if i < front.len() {
                assert(front[i] == values[i]);
                assert(u32s_bytes(values).subrange(4 * i, 4 * i + 4) =~= u32s_bytes(
                    front,
                ).subrange(4 * i, 4 * i + 4));
            } else {
                assert(u32s_bytes(values).subrange(4 * i, 4 * i + 4) =~= le_bytes(
                    values[i] as nat,
                    4,
                ));
            }
        }
    }
}

/// Runs of `u32` encodings that agree encode the same numbers.
pub proof fn lemma_u32s_bytes_injective(left: Seq<u32>, right: Seq<u32>)
    requires
        u32s_bytes(left) == u32s_bytes(right),
    ensures
        left == right,
{
    lemma_u32s_bytes(left);
    lemma_u32s_bytes(right);
    lemma_byte_limits();
    assert forall|i: int| 0 <= i < left.len() implies left[i] == right[i] by {
        lemma_value_of_bytes(left[i] as nat, 4);
        lemma_value_of_bytes(right[i] as nat, 4);
    }
    assert(left =~= right);
}

/// The length of a run of `u64` encodings, and where each of them stands.
pub proof fn lemma_u64s_bytes(values: Seq<u64>)
    ensures
        u64s_bytes(values).len() == 8 * values.len(),
        forall|i: int|
            #![trigger values[i]]
            0 <= i < values.len() ==> u64s_bytes(values).subrange(8 * i, 8 * i + 8) == le_bytes(
                values[i] as nat,
                8,
            ),
    decreases values.len(),
{
    if values.len() > 0 {
        let front = values.drop_last();
        lemma_u64s_bytes(front);
        lemma_le_bytes_len(values.last() as nat, 8);
        assert forall|i: int| #![trigger values[i]] 0 <= i < values.len() implies u64s_bytes(
            values,
        ).subrange(8 * i, 8 * i + 8) == le_bytes(values[i] as nat, 8) by {
            if i < front.len() {
                assert(front[i] == values[i]);
                assert(u64s_bytes(values).subrange(8 * i, 8 * i + 8) =~= u64s_bytes(
                    front,
                ).subrange(8 * i, 8 * i + 8));
            } else {
                assert(u64s_bytes(values).subrange(8 * i, 8 * i + 8) =~= le_bytes(
                    values[i] as nat,
                    8,
                ));
            }
        }
    }
}

/// Calls `byteorder::LittleEndian::read_u32`, which reads the first four bytes
/// of its argument, least significant first, and panics on a shorter one.
#[verifier::external_body]
fn decode_u32(bytes: &[u8]) -> (value: u32)
    requires
        bytes@.len() >= 4,
    ensures
        value == le_value(bytes@.subrange(0, 4)),
{
    LittleEndian::read_u32(bytes)
}

/// Calls `byteorder::LittleEndian::read_u64`, which reads the first eight bytes
/// of its argument, least significant first, and panics on a shorter one.
#[verifier::external_body]
fn decode_u64(bytes: &[u8]) -> (value: u64)
    requires
        bytes@.len() >= 8,
    ensures
        value == le_value(bytes@.subrange(0, 8)),
{
    LittleEndian::read_u64(bytes)
}

/// Calls `byteorder::WriteBytesExt::write_u32` on a vector, which appends four
/// bytes, least significant first. Writing to a vector never fails.
#[verifier::external_body]
pub(crate) fn append_u32(buffer: &mut Vec<u8>, value: u32)
    ensures
        final(buffer)@ == old(buffer)@ + le_bytes(value as nat, 4),
{
    let _ = buffer.write_u32::<LittleEndian>(value);
}

/// Calls `byteorder::WriteBytesExt::write_u64` on a vector, which appends eight
/// bytes, least significant first. Writing to a vector never fails.
#[verifier::external_body]
pub(crate) fn append_u64(buffer: &mut Vec<u8>, value: u64)
    ensures
        final(buffer)@ == old(buffer)@ + le_bytes(value as nat, 8),
{
    let _ = buffer.write_u64::<LittleEndian>(value);
}

/// Reads the `u32` at `offset`.
pub fn read_u32_at(bytes: &[u8], offset: usize) -> (value: u32)
    requires
        offset + 4 <= bytes@.len(),
    ensures
        value == u32_at(bytes@, offset as int),
        value as nat == le_value(bytes@.subrange(offset as int, offset + 4)),
{
    assert(offset + 4 <= bytes.len());
    let word = vstd::slice::slice_subrange(bytes, offset, offset + 4);
    assert(word@.subrange(0, 4) =~= bytes@.subrange(offset as int, offset + 4));
    decode_u32(word)
}

/// Reads the `u64` at `offset`.
pub fn read_u64_at(bytes: &[u8], offset: usize) -> (value: u64)
    requires
        offset + 8 <= bytes@.len(),
    ensures
        value == u64_at(bytes@, offset as int),
        value as nat == le_value(bytes@.subrange(offset as int, offset + 8)),
{
    assert(offset + 8 <= bytes.len());
    let word = vstd::slice::slice_subrange(bytes, offset, offset + 8);
    assert(word@.subrange(0, 8) =~= bytes@.subrange(offset as int, offset + 8));
    decode_u64(word)
}

/// Appends every byte of `tail`.
pub fn append_bytes(buffer: &mut Vec<u8>, tail: &[u8])
    ensures
        final(buffer)@ == old(buffer)@ + tail@,
{
    let ghost before = buffer@;
    buffer.extend_from_slice(tail);
    assert(buffer@ =~= before + tail@);
}

/// Appends the encodings of `values`.
pub fn append_u32s(buffer: &mut Vec<u8>, values: &[u32])
    ensures
        final(buffer)@ == old(buffer)@ + u32s_bytes(values@),
{
    let ghost before = buffer@;
    let mut index: usize = 0;
    assert(buffer@ =~= before + u32s_bytes(values@.take(0)));
    while index < values.len()
        invariant
            index <= values@.len(),
            buffer@ == before + u32s_bytes(values@.take(index as int)),
        decreases values@.len() - index,
    {
        append_u32(buffer, values[index]);
        proof {
            let taken = values@.take(index + 1);
            assert(taken.drop_last() =~= values@.take(index as int));
            assert(buffer@ =~= before + u32s_bytes(taken));
        }
        index += 1;
    }
    assert(values@.take(index as int) =~= values@);
}

/// Appends the encodings of `values`.
pub fn append_u64s(buffer: &mut Vec<u8>, values: &[u64])
    ensures
        final(buffer)@ == old(buffer)@ + u64s_bytes(values@),
{
    let ghost before = buffer@;
    let mut index: usize = 0;
    assert(buffer@ =~= before + u64s_bytes(values@.take(0)));
    while index < values.len()
        invariant
            index <= values@.len(),
            buffer@ == before + u64s_bytes(values@.take(index as int)),
        decreases values@.len() - index,
    {
        append_u64(buffer, values[index]);
        proof {
            let taken = values@.take(index + 1);
            assert(taken.drop_last() =~= values@.take(index as int));
            assert(buffer@ =~= before + u64s_bytes(taken));
        }
        index += 1;
    }
    assert(values@.take(index as int) =~= values@);
}

/// Compares two byte strings.
pub fn bytes_equal(left: &[u8], right: &[u8]) -> (equal: bool)
    ensures
        equal == (left@ == right@),
{
    if left.len() != right.len() {
        return false;
    }
    let mut index: usize = 0;
    while index < left.len()
        invariant
            index <= left@.len(),
            left@.len() == right@.len(),
            left@.take(index as int) == right@.take(index as int),
        decreases left@.len() - index,
    {
        if left[index] != right[index] {
            return false;
        }
        proof {
            assert(left@.take(index + 1) =~= left@.take(index as int).push(left@[index as int]));
            assert(right@.take(index + 1) =~= right@.take(index as int).push(right@[index as int]));
        }
        index += 1;
    }
    assert(left@.take(index as int) =~= left@);
    assert(right@.take(index as int) =~= right@);
    true
}

/// Encoding the words that a byte string holds from an offset on gives its bytes back.
pub proof fn lemma_words_are_bytes(bytes: Seq<u8>, offset: int, count: nat)
    requires
        0 <= offset,
        offset + 4 * count <= bytes.len(),
    ensures
        u32s_bytes(Seq::new(count, |at: int| u32_at(bytes, offset + 4 * at))) == bytes.subrange(
            offset,
            offset + 4 * count,
        ),
    decreases count,
{
    let words = Seq::new(count, |at: int| u32_at(bytes, offset + 4 * at));
    if count > 0 {
        let before = (count - 1) as nat;
        let start = offset + 4 * before;
        lemma_words_are_bytes(bytes, offset, before);
        assert(words.drop_last() =~= Seq::new(before, |at: int| u32_at(bytes, offset + 4 * at)));
        lemma_word_is_bytes(bytes, start);
        assert(bytes.subrange(offset, offset + 4 * count) =~= bytes.subrange(offset, start)
            + bytes.subrange(start, start + 4));
    } else {
        assert(bytes.subrange(offset, offset) =~= Seq::<u8>::empty());
    }
}

/// Encoding the `u32` at an offset gives its bytes back.
pub proof fn lemma_word_is_bytes(bytes: Seq<u8>, offset: int)
    requires
        0 <= offset,
        offset + 4 <= bytes.len(),
    ensures
        le_bytes(u32_at(bytes, offset) as nat, 4) == bytes.subrange(offset, offset + 4),
{
    let part = bytes.subrange(offset, offset + 4);
    lemma_bytes_of_value(part);
    lemma_le_value_bound(part);
    lemma_byte_limits();
}

/// Encoding the `u64` at an offset gives its bytes back.
pub proof fn lemma_long_word_is_bytes(bytes: Seq<u8>, offset: int)
    requires
        0 <= offset,
        offset + 8 <= bytes.len(),
    ensures
        le_bytes(u64_at(bytes, offset) as nat, 8) == bytes.subrange(offset, offset + 8),
{
    let part = bytes.subrange(offset, offset + 8);
    lemma_bytes_of_value(part);
    lemma_le_value_bound(part);
    lemma_byte_limits();
}

/// Runs of `u64` encodings that agree encode the same numbers.
pub proof fn lemma_u64s_bytes_injective(left: Seq<u64>, right: Seq<u64>)
    requires
        u64s_bytes(left) == u64s_bytes(right),
    ensures
        left == right,
{
    lemma_u64s_bytes(left);
    lemma_u64s_bytes(right);
    lemma_byte_limits();
    assert forall|at: int| 0 <= at < left.len() implies left[at] == right[at] by {
        let value = left[at];
        let other = right[at];
        lemma_value_of_bytes(value as nat, 8);
        lemma_value_of_bytes(other as nat, 8);
    }
    assert(left =~= right);
}

} // verus!
