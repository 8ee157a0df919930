//! Numbers as bytes.

use byteorder::{ByteOrder, LittleEndian};
use vstd::prelude::*;

use crate::buffer::window;

verus! {

/// The number that four bytes stand for, the lowest first.
pub open spec fn little_endian(bytes: Seq<u8>) -> int {
    bytes[0] + 0x100 * bytes[1] + 0x1_0000 * bytes[2] + 0x100_0000 * bytes[3]
}

/// The number with a sign that four bytes stand for, the lowest first.
pub open spec fn little_endian_signed(bytes: Seq<u8>) -> int {
    if little_endian(bytes) < 0x8000_0000 {
        little_endian(bytes)
    } else {
        little_endian(bytes) - 0x1_0000_0000
    }
}

/// Calls `byteorder::LittleEndian::read_u32`, which panics on less than four bytes. Claimed: the
/// result is the number that the first four bytes stand for, the lowest first.
#[verifier::external_body]
pub(crate) fn read_u32(bytes: &[u8]) -> (r: u32)
    requires
        bytes@.len() >= 4,
    ensures
        r == little_endian(bytes@),
{
    LittleEndian::read_u32(bytes)
}

/// Calls `byteorder::LittleEndian::read_i32`, which panics on less than four bytes. Claimed: the
/// result is the number with a sign, in two's complement, that the first four bytes stand for,
/// the lowest first.
#[verifier::external_body]
pub(crate) fn read_i32(bytes: &[u8]) -> (r: i32)
    requires
        bytes@.len() >= 4,
    ensures
        r == little_endian_signed(bytes@),
{
    LittleEndian::read_i32(bytes)
}

/// The number with a sign that four bytes stand for, the highest first if `big` says so, and
/// else the lowest.
pub open spec fn ordered(big: bool, bytes: Seq<u8>) -> int {
    if big {
        little_endian_signed(seq![bytes[3], bytes[2], bytes[1], bytes[0]])
    } else {
        little_endian_signed(bytes)
    }
}

/// `bytes` are the numbers one behind the other, four bytes each.
pub open spec fn stored_as(big: bool, numbers: Seq<i32>, bytes: Seq<u8>) -> bool {
    &&& bytes.len() == 4 * numbers.len()
    &&& forall|i: int|
        0 <= i < numbers.len() ==> #[trigger] numbers[i] == ordered(big, window(bytes, 4 * i, 4))
}

/// Calls `bytemuck::cast_slice_mut` to see numbers as the bytes that they are stored as, four
/// each. Claimed: writing to these bytes writes to the numbers. The order of the bytes of a number
/// is that of the machine, so all that is said of it is that it is one of two, and the same for
/// all numbers.
#[verifier::external_body]
pub(crate) fn bytes_mut(numbers: &mut [i32]) -> (bytes: &mut [u8])
    ensures
        bytes@.len() == 4 * old(numbers)@.len(),
        final(bytes)@.len() == bytes@.len() ==> final(numbers)@.len() == old(numbers)@.len(),
        exists|big: bool|
            #![trigger stored_as(big, old(numbers)@, bytes@)]
            stored_as(big, old(numbers)@, bytes@) && (final(bytes)@.len() == bytes@.len()
                ==> stored_as(big, final(numbers)@, final(bytes)@)),
{
    bytemuck::cast_slice_mut(numbers)
}

} // verus!
