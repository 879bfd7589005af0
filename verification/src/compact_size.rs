//! The compact size encoding of unsigned integers.
//!
//! A value below `0xFD` is one byte. A larger value is a tag byte followed by the value in
//! little-endian order: `0xFD` and two bytes, `0xFE` and four bytes, or `0xFF` and eight bytes,
//! whichever is the shortest that holds it.

use vstd::prelude::*;
use vstd::slice::slice_subrange;

verus! {

/// The `width` low bytes of `value`, least significant first.
pub open spec fn le_bytes(value: nat, width: nat) -> Seq<u8>
    decreases width,
{
    if width == 0 {
        Seq::empty()
    } else {
        seq![(value % 256) as u8] + le_bytes(value / 256, (width - 1) as nat)
    }
}

/// The value that `bytes` holds, least significant byte first.
pub open spec fn le_value(bytes: Seq<u8>) -> nat
    decreases bytes.len(),
{
    if bytes.len() == 0 {
        0
    } else {
        bytes[0] as nat + 256 * le_value(bytes.drop_first())
    }
}

/// How many bytes follow the first byte of an encoding that begins with `tag`.
pub open spec fn payload_width(tag: u8) -> nat {
    if tag == 0xFF {
        8
    } else if tag == 0xFE {
        4
    } else if tag == 0xFD {
        2
    } else {
        0
    }
}

/// The tag byte of the encoding of `value`; `None` where the value is its own single byte.
pub open spec fn tag_of(value: nat) -> Option<u8> {
    if value < 0xFD {
        None
    } else if value <= 0xFFFF {
        Some(0xFDu8)
    } else if value <= 0xFFFF_FFFF {
        Some(0xFEu8)
    } else {
        Some(0xFFu8)
    }
}

/// The compact size encoding of `value`.
pub open spec fn encoding(value: nat) -> Seq<u8>
    recommends
        value <= u64::MAX,
{
    match tag_of(value) {
        None => seq![value as u8],
        Some(tag) => seq![tag] + le_bytes(value, payload_width(tag)),
    }
}

/// The length of the compact size encoding of `value`.
pub open spec fn size_of_encoding(value: nat) -> nat {
    match tag_of(value) {
        None => 1,
        Some(tag) => 1 + payload_width(tag),
    }
}

/// The value at the start of `bytes` and the length of its encoding; `None` where `bytes` ends
/// before the encoding does.
pub open spec fn decoding(bytes: Seq<u8>) -> Option<(nat, nat)> {
    if bytes.len() == 0 || bytes.len() < 1 + payload_width(bytes[0]) {
        None
    } else if payload_width(bytes[0]) == 0 {
        Some((bytes[0] as nat, 1))
    } else {
        let end = 1 + payload_width(bytes[0]);
        Some((le_value(bytes.subrange(1, end as int)), end))
    }
}

/// `256` to the power `width`: one more than the largest value of `width` bytes.
pub open spec fn byte_range(width: nat) -> nat
    decreases width,
{
    if width == 0 {
        1
    } else {
        256 * byte_range((width - 1) as nat)
    }
}

proof fn lemma_byte_ranges()
    ensures
        byte_range(2) == 0x1_0000,
        byte_range(4) == 0x1_0000_0000,
        byte_range(8) == 0x1_0000_0000_0000_0000,
{
    reveal_with_fuel(byte_range, 9);
}

pub(crate) proof fn lemma_le_bytes_len(value: nat, width: nat)
    ensures
        le_bytes(value, width).len() == width,
    decreases width,
{
    if width > 0 {
        lemma_le_bytes_len(value / 256, (width - 1) as nat);
    }
}

/// Reading back the little-endian bytes of a value gives the value, if they are enough to hold it.
pub proof fn lemma_le_round_trip(value: nat, width: nat)
    requires
        value < byte_range(width),
    ensures
        le_value(le_bytes(value, width)) == value,
    decreases width,
{
    if width > 0 {
        let rest = (width - 1) as nat;
        lemma_le_round_trip(value / 256, rest);
        lemma_le_bytes_len(value / 256, rest);
        assert(le_bytes(value, width).drop_first() =~= le_bytes(value / 256, rest));
    }
}

proof fn lemma_le_value_bound(bytes: Seq<u8>)
    ensures
        le_value(bytes) < byte_range(bytes.len()),
    decreases bytes.len(),
{
    if bytes.len() > 0 {
        lemma_le_value_bound(bytes.drop_first());
    }
}

/// An encoding is as long as `size_of_encoding` says.
pub proof fn lemma_encoding_len(value: nat)
    ensures
        encoding(value).len() == size_of_encoding(value),
        1 <= size_of_encoding(value) <= 9,
{
    if let Some(tag) = tag_of(value) {
        lemma_le_bytes_len(value, payload_width(tag));
    }
}

/// Decoding an encoding gives back the value and the length of the encoding, whatever follows it.
pub proof fn lemma_decoding_of_encoding(value: nat, rest: Seq<u8>)
    requires
        value <= u64::MAX,
    ensures
        decoding(encoding(value) + rest) == Some((value, size_of_encoding(value))),
{
    lemma_encoding_len(value);
    lemma_byte_ranges();
    let bytes = encoding(value) + rest;
    assert(bytes[0] == encoding(value)[0]);
    if let Some(tag) = tag_of(value) {
        let width = payload_width(tag);
        lemma_le_bytes_len(value, width);
        lemma_le_round_trip(value, width);
        assert(bytes.subrange(1, (1 + width) as int) =~= le_bytes(value, width));
    }
}

/// No encoding of a value is shorter than the one that [`encode`] gives.
pub proof fn lemma_encoding_is_shortest(bytes: Seq<u8>)
    ensures
        decoding(bytes) matches Some((value, len)) ==> size_of_encoding(value) <= len,
{
    lemma_byte_ranges();
    if let Some((value, len)) = decoding(bytes) {
        if len > 1 {
            lemma_le_value_bound(bytes.subrange(1, len as int));
        }
    }
}

/// A decoded value always fits in 64 bits.
pub proof fn lemma_decoding_bound(bytes: Seq<u8>)
    ensures
        decoding(bytes) matches Some((value, len)) ==> value <= u64::MAX && 1 <= len <= bytes.len(),
{
    lemma_byte_ranges();
    if let Some((value, len)) = decoding(bytes) {
        if len > 1 {
            lemma_le_value_bound(bytes.subrange(1, len as int));
        }
    }
}

/// Appends the `width` low bytes of `value` to `out`, least significant first.
fn push_le_bytes(out: &mut Vec<u8>, value: u64, width: usize)
    ensures
        final(out)@ == old(out)@ + le_bytes(value as nat, width as nat),
{
    let mut left: u64 = value;
    let mut i: usize = 0;
    assert(out@ + le_bytes(left as nat, width as nat) =~= old(out)@ + le_bytes(
        value as nat,
        width as nat,
    ));
    while i < width
        invariant
            i <= width,
            out@ + le_bytes(left as nat, (width - i) as nat) == old(out)@ + le_bytes(
                value as nat,
                width as nat,
            ),
        decreases width - i,
    {
        let ghost before = out@;
        out.push((left % 256) as u8);
        assert(out@ + le_bytes(left as nat / 256, (width - i - 1) as nat) =~= before + le_bytes(
            left as nat,
            (width - i) as nat,
        ));
        left = left / 256;
        i = i + 1;
    }
    assert(out@ + le_bytes(left as nat, 0) =~= out@);
}

/// Reads all of `bytes` as one value, least significant byte first.
fn read_le_bytes(bytes: &[u8]) -> (value: u64)
    requires
        bytes@.len() <= 8,
    ensures
        value == le_value(bytes@),
{
    let mut value: u64 = 0;
    let mut i: usize = bytes.len();
    assert(bytes@.skip(bytes@.len() as int) =~= Seq::empty());
    while i > 0
        invariant
            i <= bytes@.len() <= 8,
            value == le_value(bytes@.skip(i as int)),
        decreases i,
    {
        i = i - 1;
        proof {
            let tail = bytes@.skip(i as int);
            assert(tail.drop_first() =~= bytes@.skip(i + 1));
            lemma_le_value_bound(tail);
            reveal_with_fuel(byte_range, 9);
            assert(tail.len() <= 8);
            assert(byte_range(tail.len()) <= 0x1_0000_0000_0000_0000);
        }
        value = value * 256 + bytes[i] as u64;
    }
    assert(bytes@.skip(0) =~= bytes@);
    value
}

/// Returns the number of bytes that [`encode`] gives for `value`.
pub fn encoded_size(value: usize) -> (size: usize)
    ensures
        size == size_of_encoding(value as nat),
{
    let value: u64 = value as u64;
    if value < 0xFD {
        1
    } else if value <= 0xFFFF {
        3
    } else if value <= 0xFFFF_FFFF {
        5
    } else {
        9
    }
}

/// Returns the compact size encoding of `value`.
pub fn encode(value: usize) -> (encoded: Vec<u8>)
    ensures
        encoded@ == encoding(value as nat),
{
    let value: u64 = value as u64;
    let mut encoded: Vec<u8> = Vec::new();
    if value < 0xFD {
        encoded.push(value as u8);
    } else if value <= 0xFFFF {
        encoded.push(0xFD);
        push_le_bytes(&mut encoded, value, 2);
    } else if value <= 0xFFFF_FFFF {
        encoded.push(0xFE);
        push_le_bytes(&mut encoded, value, 4);
    } else {
        encoded.push(0xFF);
        push_le_bytes(&mut encoded, value, 8);
    }
    assert(encoded@ =~= encoding(value as nat));
    encoded
}

/// Returns whether `slice` begins with a whole encoding, which [`decode_unchecked`] can take off.
pub fn can_decode(slice: &[u8]) -> (can: bool)
    ensures
        can == (decoding(slice@) is Some),
{
    if slice.len() == 0 {
        false
    } else {
        let tag: u8 = slice[0];
        if tag == 0xFF {
            slice.len() >= 9
        } else if tag == 0xFE {
            slice.len() >= 5
        } else if tag == 0xFD {
            slice.len() >= 3
        } else {
            true
        }
    }
}

/// Takes a compact size value off the front of `slice` and returns it.
///
/// The slice must hold the whole encoding. An encoding that is longer than it need be is read all
/// the same.
pub fn decode_unchecked(slice: &mut &[u8]) -> (value: u64)
    requires
        decoding(old(slice)@) is Some,
    ensures
        value == (decoding(old(slice)@)->0).0,
        final(slice)@ == old(slice)@.skip((decoding(old(slice)@)->0).1 as int),
{
    let bytes: &[u8] = *slice;
    let tag: u8 = bytes[0];
    let end: usize = if tag == 0xFF {
        9
    } else if tag == 0xFE {
        5
    } else if tag == 0xFD {
        3
    } else {
        1
    };
    *slice = slice_subrange(bytes, end, bytes.len());
    if end == 1 {
        tag as u64
    } else {
        read_le_bytes(slice_subrange(bytes, 1, end))
    }
}

/// The encoding of a value, byte by byte: a value below `0xFD` is its own single byte. A larger one
/// has a first byte that tells how many bytes follow, and these hold the value, the least
/// significant byte first.
pub proof fn lemma_encoding_bytes(value: nat)
    requires
        value <= u64::MAX,
    ensures
        ({
            let b = encoding(value);
            &&& value < 0xFD ==> b.len() == 1 && b[0] == value
            &&& 0xFD <= value <= 0xFFFF ==> b.len() == 3 && b[0] == 0xFD && b[1] + 0x100 * b[2]
                == value
            &&& 0xFFFF < value <= 0xFFFF_FFFF ==> b.len() == 5 && b[0] == 0xFE && b[1] + 0x100 * b[2]
                + 0x1_0000 * b[3] + 0x100_0000 * b[4] == value
            &&& 0xFFFF_FFFF < value ==> b.len() == 9 && b[0] == 0xFF && b[1] + 0x100 * b[2]
                + 0x1_0000 * b[3] + 0x100_0000 * b[4] + 0x1_0000_0000 * b[5] + 0x100_0000_0000 * b[6]
                + 0x1_0000_0000_0000 * b[7] + 0x100_0000_0000_0000 * b[8] == value
        }),
{
    lemma_encoding_len(value);
    if value >= 0xFD {
        let width = payload_width(tag_of(value)->0);
        let payload = le_bytes(value, width);
        lemma_le_bytes_len(value, width);
        assert forall|i: int| 0 <= i < width implies encoding(value)[i + 1] == payload[i] by {}
        lemma_byte_ranges();
        lemma_le_round_trip(value, width);
        lemma_le_sums(payload);
    }
}

/// The length of an encoding: one byte below `0xFD`, three up to 16 bits, five up to 32 bits, nine
/// for more.
pub proof fn lemma_encoding_sizes(value: nat)
    ensures
        size_of_encoding(value) == if value < 0xFD {
            1int
        } else if value < 0x1_0000 {
            3
        } else if value < 0x1_0000_0000 {
            5
        } else {
            9
        },
{
}

/// What is decoded, byte by byte: the first byte tells how many bytes follow, and these give the
/// value, the least significant byte first. Nothing is decoded if there are fewer bytes.
pub proof fn lemma_decoding_bytes(b: Seq<u8>)
    ensures
        b.len() == 0 ==> decoding(b) is None,
        b.len() > 0 && b[0] < 0xFD ==> decoding(b) == Some((b[0] as nat, 1nat)),
        b.len() > 0 && b[0] == 0xFD ==> {
            &&& decoding(b) is None <==> b.len() < 3
            &&& decoding(b) matches Some((value, width)) ==> width == 3 && value == b[1] + 0x100
                * b[2]
        },
        b.len() > 0 && b[0] == 0xFE ==> {
            &&& decoding(b) is None <==> b.len() < 5
            &&& decoding(b) matches Some((value, width)) ==> width == 5 && value == b[1] + 0x100
                * b[2] + 0x1_0000 * b[3] + 0x100_0000 * b[4]
        },
        b.len() > 0 && b[0] == 0xFF ==> {
            &&& decoding(b) is None <==> b.len() < 9
            &&& decoding(b) matches Some((value, width)) ==> width == 9 && value == b[1] + 0x100
                * b[2] + 0x1_0000 * b[3] + 0x100_0000 * b[4] + 0x1_0000_0000 * b[5] + 0x100_0000_0000
                * b[6] + 0x1_0000_0000_0000 * b[7] + 0x100_0000_0000_0000 * b[8]
        },
{
    if b.len() > 0 && payload_width(b[0]) > 0 && b.len() >= 1 + payload_width(b[0]) {
        lemma_le_sums(b.subrange(1, (1 + payload_width(b[0])) as int));
    }
}

proof fn lemma_le_sums(b: Seq<u8>)
    ensures
        b.len() == 2 ==> le_value(b) == b[0] + 0x100 * b[1],
        b.len() == 4 ==> le_value(b) == b[0] + 0x100 * b[1] + 0x1_0000 * b[2] + 0x100_0000 * b[3],
        b.len() == 8 ==> le_value(b) == b[0] + 0x100 * b[1] + 0x1_0000 * b[2] + 0x100_0000 * b[3]
            + 0x1_0000_0000 * b[4] + 0x100_0000_0000 * b[5] + 0x1_0000_0000_0000 * b[6]
            + 0x100_0000_0000_0000 * b[7],
{
    reveal_with_fuel(le_value, 9);
}

} // verus!
