//! Cursors: 32-bit positions that stand in an index area in the machine's own byte order.

use crate::bytes;
use vstd::prelude::*;

verus! {

/// The four bytes of `value` in the byte order of the machine.
pub open spec fn native_bytes(value: u32) -> Seq<u8> {
    let b0 = (value % 0x100) as u8;
    let b1 = (value / 0x100 % 0x100) as u8;
    let b2 = (value / 0x1_0000 % 0x100) as u8;
    let b3 = (value / 0x100_0000) as u8;
    match vstd::endian::endianness() {
        vstd::endian::Endian::Little => seq![b0, b1, b2, b3],
        vstd::endian::Endian::Big => seq![b3, b2, b1, b0],
    }
}

/// The value of four bytes that stand in the byte order of the machine.
pub open spec fn native_value(bytes: Seq<u8>) -> u32
    recommends
        bytes.len() == 4,
{
    match vstd::endian::endianness() {
        vstd::endian::Endian::Little => (bytes[0] + 0x100 * bytes[1] + 0x1_0000 * bytes[2] + 0x100_0000
            * bytes[3]) as u32,
        vstd::endian::Endian::Big => (bytes[3] + 0x100 * bytes[2] + 0x1_0000 * bytes[1] + 0x100_0000
            * bytes[0]) as u32,
    }
}

/// `u32::to_ne_bytes`: the memory representation of an integer as a byte array in native byte
/// order. The byte order of the machine is `endianness()`.
#[verifier::external_body]
fn to_ne_bytes(value: u32) -> (bytes: [u8; 4])
    ensures
        bytes@ == native_bytes(value),
{
    u32::to_ne_bytes(value)
}

/// `u32::from_ne_bytes`: the integer whose memory representation in native byte order the byte
/// array is. The byte order of the machine is `endianness()`.
#[verifier::external_body]
fn from_ne_bytes(bytes: [u8; 4]) -> (value: u32)
    ensures
        value == native_value(bytes@),
{
    u32::from_ne_bytes(bytes)
}

/// Reading back the bytes of a value gives the value.
pub proof fn lemma_native_round_trip(value: u32)
    ensures
        native_bytes(value).len() == 4,
        native_value(native_bytes(value)) == value,
{
}

/// Where the cursor number `index` stands, if the index area begins at `start_of_indices`.
pub open spec fn slot_start(start_of_indices: int, index: int) -> int {
    start_of_indices + index * 4
}

/// Whether `bytes` reaches to the end of cursor number `index`.
pub open spec fn has_slot(bytes: Seq<u8>, start_of_indices: int, index: int) -> bool {
    slot_start(start_of_indices, index) + 4 <= bytes.len()
}

/// The cursor number `index`.
pub open spec fn cursor_at(bytes: Seq<u8>, start_of_indices: int, index: int) -> u32
    recommends
        has_slot(bytes, start_of_indices, index),
{
    let start = slot_start(start_of_indices, index);
    native_value(bytes.subrange(start, start + 4))
}

/// Writes `value` as cursor number `index`.
///
/// The value must fit in 32 bits.
pub(crate) fn encode_cursor(bytes: &mut [u8], start_of_indices: usize, index: usize, value: usize)
    requires
        has_slot(old(bytes)@, start_of_indices as int, index as int),
        value <= u32::MAX,
    ensures
        final(bytes)@ == bytes::overwritten(
            old(bytes)@,
            slot_start(start_of_indices as int, index as int),
            native_bytes(value as u32),
        ),
{
    assert(bytes@.len() == bytes.len());
    let start: usize = start_of_indices + index * 4;
    let encoded: [u8; 4] = to_ne_bytes(value as u32);
    proof {
        lemma_native_round_trip(value as u32);
    }
    bytes::overwrite(bytes, start, encoded.as_slice());
}

/// Returns the cursor number `index`, or `None` if `bytes` ends before it does.
pub(crate) fn decode_cursor(bytes: &[u8], start_of_indices: usize, index: usize) -> (cursor: Option<
    usize,
>)
    ensures
        cursor is Some <==> has_slot(bytes@, start_of_indices as int, index as int),
        cursor matches Some(value) ==> value == cursor_at(
            bytes@,
            start_of_indices as int,
            index as int,
        ),
{
    let len: usize = bytes.len();
    if start_of_indices > len || len - start_of_indices < 4 || index > (len - start_of_indices - 4)
        / 4 {
        None
    } else {
        let start: usize = start_of_indices + index * 4;
        let end: usize = start + 4;
        let slot: [u8; 4] = [bytes[start], bytes[start + 1], bytes[start + 2], bytes[start + 3]];
        assert(slot@ =~= bytes@.subrange(start as int, end as int));
        Some(from_ne_bytes(slot) as usize)
    }
}

/// The four bytes of a value, on either kind of machine: the least significant byte comes first or
/// last.
pub proof fn lemma_native_bytes(value: u32)
    ensures
        ({
            let b = native_bytes(value);
            &&& b.len() == 4
            &&& vstd::endian::endianness() is Little ==> b[0] + 0x100 * b[1] + 0x1_0000 * b[2]
                + 0x100_0000 * b[3] == value
            &&& vstd::endian::endianness() is Big ==> b[3] + 0x100 * b[2] + 0x1_0000 * b[1]
                + 0x100_0000 * b[0] == value
        }),
{
}

/// A cursor is there if its four bytes are, and it is the number that these four bytes hold.
pub proof fn lemma_cursor_bytes(bytes: Seq<u8>, start_of_indices: int, index: int)
    requires
        0 <= start_of_indices,
        0 <= index,
    ensures
        slot_start(start_of_indices, index) == start_of_indices + 4 * index,
        has_slot(bytes, start_of_indices, index) <==> start_of_indices + 4 * index + 4
            <= bytes.len(),
        start_of_indices + 4 * index + 4 <= bytes.len() ==> {
            let at = start_of_indices + 4 * index;
            let value = cursor_at(bytes, start_of_indices, index);
            &&& vstd::endian::endianness() is Little ==> value == bytes[at] + 0x100 * bytes[at + 1]
                + 0x1_0000 * bytes[at + 2] + 0x100_0000 * bytes[at + 3]
            &&& vstd::endian::endianness() is Big ==> value == bytes[at + 3] + 0x100 * bytes[at + 2]
                + 0x1_0000 * bytes[at + 1] + 0x100_0000 * bytes[at]
        },
{
}

} // verus!
