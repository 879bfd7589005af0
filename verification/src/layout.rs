//! How a list of byte strings is laid out in one buffer, and how it is read back.
//!
//! The buffer holds the elements one after the other, each behind its length as a compact size
//! integer. Behind the last element begins the index area: one cursor per element, which gives the
//! position at which that element starts.

use crate::bytes;
use crate::compact_size;
use crate::cursor;
use vstd::prelude::*;
use vstd::slice::slice_subrange;

verus! {

/// An element with its length in front of it.
pub open spec fn item(element: Seq<u8>) -> Seq<u8> {
    compact_size::encoding(element.len()) + element
}

/// The elements, each with its length in front of it.
pub open spec fn data(elements: Seq<Seq<u8>>) -> Seq<u8>
    decreases elements.len(),
{
    if elements.len() == 0 {
        Seq::empty()
    } else {
        data(elements.drop_last()) + item(elements.last())
    }
}

/// The position at which element number `index` starts.
pub open spec fn offset(elements: Seq<Seq<u8>>, index: int) -> nat {
    data(elements.take(index)).len()
}

/// One cursor for each element: the position at which it starts.
pub open spec fn index_area(elements: Seq<Seq<u8>>) -> Seq<u8>
    decreases elements.len(),
{
    if elements.len() == 0 {
        Seq::empty()
    } else {
        index_area(elements.drop_last()) + cursor::native_bytes(data(elements.drop_last()).len() as u32)
    }
}

/// The buffer that holds `elements`.
pub open spec fn content_of(elements: Seq<Seq<u8>>) -> Seq<u8> {
    data(elements) + index_area(elements)
}

/// The elements as they stand in a serialized transaction: their number, then the elements.
pub open spec fn serialization(elements: Seq<Seq<u8>>) -> Seq<u8> {
    compact_size::encoding(elements.len()) + data(elements)
}

/// Whether a buffer can hold `elements`: it stays within the largest size of an allocation, and
/// every cursor fits in 32 bits.
pub open spec fn fits(elements: Seq<Seq<u8>>) -> bool {
    &&& data(elements).len() + 4 * elements.len() <= isize::MAX
    &&& forall|i: int| 0 <= i < elements.len() ==> #[trigger] offset(elements, i) <= u32::MAX
}

/// Whether an element can be read at `pos`: its length, and then as many bytes, are there.
pub open spec fn readable_at(content: Seq<u8>, pos: int) -> bool {
    &&& pos <= content.len()
    &&& compact_size::decoding(content.skip(pos)) matches Some((len, width)) && pos + width + (len as usize)
        <= content.len()
}

/// The element that stands at `pos`.
pub open spec fn element_at(content: Seq<u8>, pos: int) -> Seq<u8>
    recommends
        readable_at(content, pos),
{
    let (len, width) = compact_size::decoding(content.skip(pos))->0;
    content.subrange(pos + width, pos + width + (len as usize))
}

/// How many whole cursors the buffer holds from `start` on.
pub open spec fn slots(content: Seq<u8>, start: int) -> nat {
    if start + 4 > content.len() {
        0
    } else {
        ((content.len() - start) / 4) as nat
    }
}

/// Whether reading element number `index` stays inside the buffer. Where there is no such cursor,
/// nothing is read.
pub open spec fn readable(content: Seq<u8>, start: int, index: int) -> bool {
    cursor::has_slot(content, start, index) ==> readable_at(
        content,
        cursor::cursor_at(content, start, index) as int,
    )
}

/// Element number `index`: the one that its cursor points to.
pub open spec fn element(content: Seq<u8>, start: int, index: int) -> Seq<u8>
    recommends
        cursor::has_slot(content, start, index),
        readable(content, start, index),
{
    element_at(content, cursor::cursor_at(content, start, index) as int)
}

/// The first `count` elements that the cursors from `start` on point to.
pub open spec fn elements_of(content: Seq<u8>, start: int, count: nat) -> Seq<Seq<u8>> {
    Seq::new(count, |i: int| element(content, start, i))
}

/// Whether the buffer is that of the elements which its cursors point to, with the index area at
/// `start`.
pub open spec fn well_formed(content: Seq<u8>, start: int, count: nat) -> bool {
    let elements = elements_of(content, start, count);
    &&& fits(elements)
    &&& content == content_of(elements)
    &&& start == data(elements).len()
}

/// Whether all elements that the index area from `start` on points to can be read in turn.
pub open spec fn walkable(content: Seq<u8>, start: int) -> bool {
    forall|i: int|
        0 <= i < slots(content, start) ==> readable_at(
            content,
            #[trigger] cursor::cursor_at(content, start, i) as int,
        )
}

/// The buffer after one more element: the element goes in front of the index area, which grows by
/// four bytes and gets the position of the new element as cursor number `count`.
pub open spec fn pushed(content: Seq<u8>, start: int, count: nat, new: Seq<u8>) -> Seq<u8> {
    content.take(start) + item(new) + bytes::overwritten(
        content.skip(start) + bytes::zeros(4),
        count as int * 4,
        cursor::native_bytes(start as u32),
    )
}

/// A cursor is there exactly if it is one of the whole ones.
pub proof fn lemma_slots(content: Seq<u8>, start: int, index: int)
    requires
        0 <= start,
        0 <= index,
    ensures
        cursor::has_slot(content, start, index) <==> index < slots(content, start),
{
}

pub(crate) proof fn lemma_index_area_len(elements: Seq<Seq<u8>>)
    ensures
        index_area(elements).len() == 4 * elements.len(),
    decreases elements.len(),
{
    if elements.len() > 0 {
        lemma_index_area_len(elements.drop_last());
        cursor::lemma_native_round_trip(data(elements.drop_last()).len() as u32);
    }
}

pub(crate) proof fn lemma_item_len(element: Seq<u8>)
    ensures
        item(element).len() == compact_size::size_of_encoding(element.len()) + element.len(),
        1 <= compact_size::size_of_encoding(element.len()) <= 9,
{
    compact_size::lemma_encoding_len(element.len());
}

/// An element's item stands between its own position and that of the element behind it.
pub proof fn lemma_item_position(elements: Seq<Seq<u8>>, index: int)
    requires
        0 <= index < elements.len(),
    ensures
        offset(elements, index + 1) == offset(elements, index) + item(elements[index]).len(),
        offset(elements, index + 1) <= data(elements).len(),
        data(elements).subrange(
            offset(elements, index) as int,
            offset(elements, index + 1) as int,
        ) == item(elements[index]),
    decreases elements.len(),
{
    let init = elements.drop_last();
    assert(elements.take(index + 1).drop_last() =~= elements.take(index));
    if index + 1 == elements.len() {
        assert(elements.take(index + 1) =~= elements);
        assert(elements.take(index) =~= init);
        assert(data(elements).subrange(data(init).len() as int, data(elements).len() as int)
            =~= item(elements.last()));
    } else {
        lemma_item_position(init, index);
        assert(init.take(index) =~= elements.take(index));
        assert(init.take(index + 1) =~= elements.take(index + 1));
        assert(data(elements).subrange(
            offset(elements, index) as int,
            offset(elements, index + 1) as int,
        ) =~= data(init).subrange(offset(init, index) as int, offset(init, index + 1) as int));
    }
}

/// The cursor of an element is its position.
pub proof fn lemma_cursor_position(elements: Seq<Seq<u8>>, index: int)
    requires
        0 <= index < elements.len(),
    ensures
        index_area(elements).len() == 4 * elements.len(),
        index_area(elements).subrange(4 * index, 4 * index + 4) == cursor::native_bytes(
            offset(elements, index) as u32,
        ),
    decreases elements.len(),
{
    let init = elements.drop_last();
    lemma_index_area_len(elements);
    lemma_index_area_len(init);
    if index + 1 == elements.len() {
        assert(elements.take(index) =~= init);
        assert(index_area(elements).subrange(4 * index, 4 * index + 4) =~= cursor::native_bytes(
            data(init).len() as u32,
        ));
    } else {
        lemma_cursor_position(init, index);
        assert(init.take(index) =~= elements.take(index));
        assert(index_area(elements).subrange(4 * index, 4 * index + 4) =~= index_area(
            init,
        ).subrange(4 * index, 4 * index + 4));
    }
}

/// Reading one element of a buffer gives the element that was laid out there.
pub proof fn lemma_element_reads_back(elements: Seq<Seq<u8>>, index: int)
    requires
        fits(elements),
        0 <= index < elements.len(),
    ensures
        ({
            let content = content_of(elements);
            let start = data(elements).len() as int;
            &&& cursor::has_slot(content, start, index)
            &&& cursor::cursor_at(content, start, index) == offset(elements, index)
            &&& readable_at(content, offset(elements, index) as int)
            &&& element(content, start, index) == elements[index]
        }),
{
    let content = content_of(elements);
    let start = data(elements).len() as int;
    let pos = offset(elements, index) as int;
    let new = elements[index];
    lemma_item_position(elements, index);
    lemma_cursor_position(elements, index);
    assert(content.subrange(start + 4 * index, start + 4 * index + 4) =~= index_area(
        elements,
    ).subrange(4 * index, 4 * index + 4));
    cursor::lemma_native_round_trip(pos as u32);
    lemma_item_len(new);
    let end = offset(elements, index + 1) as int;
    let rest = new + content.skip(end);
    assert(content.skip(pos) =~= compact_size::encoding(new.len()) + rest) by {
        assert(content.subrange(pos, end) =~= data(elements).subrange(pos, end));
        assert(content.skip(pos) =~= content.subrange(pos, end) + content.skip(end));
    }
    compact_size::lemma_decoding_of_encoding(new.len(), rest);
    assert(element_at(content, pos) =~= new) by {
        assert(content.subrange(pos, end) =~= item(new));
        let width = compact_size::size_of_encoding(new.len());
        assert(content.subrange(pos + width, end) =~= item(new).skip(width as int));
        assert(item(new).skip(width as int) =~= new);
    }
}

/// What is laid out is read back: the buffer of a list of elements holds one cursor per element,
/// and the cursors point to these elements.
pub proof fn lemma_layout_reads_back(elements: Seq<Seq<u8>>)
    requires
        fits(elements),
    ensures
        ({
            let content = content_of(elements);
            let start = data(elements).len() as int;
            &&& slots(content, start) == elements.len()
            &&& elements_of(content, start, elements.len()) == elements
            &&& well_formed(content, start, elements.len())
            &&& walkable(content, start)
        }),
{
    let content = content_of(elements);
    let start = data(elements).len() as int;
    lemma_index_area_len(elements);
    assert forall|i: int| 0 <= i < elements.len() implies readable_at(
        content,
        #[trigger] cursor::cursor_at(content, start, i) as int,
    ) && element(content, start, i) == elements[i] by {
        lemma_element_reads_back(elements, i);
    }
    assert(elements_of(content, start, elements.len()) =~= elements);
}

/// Two well-formed buffers hold the same elements exactly if they are the same, with their index
/// areas at the same place.
pub proof fn lemma_layout_is_canonical(
    content1: Seq<u8>,
    start1: int,
    count1: nat,
    content2: Seq<u8>,
    start2: int,
    count2: nat,
)
    requires
        well_formed(content1, start1, count1),
        well_formed(content2, start2, count2),
    ensures
        elements_of(content1, start1, count1) == elements_of(content2, start2, count2) <==> (
        content1 == content2 && start1 == start2 && count1 == count2),
{
    let elements1 = elements_of(content1, start1, count1);
    let elements2 = elements_of(content2, start2, count2);
    assert(elements1.len() == count1);
    assert(elements2.len() == count2);
}

/// The items of an element list, from one element on, begin with the length of that element and
/// the element.
proof fn lemma_data_from(elements: Seq<Seq<u8>>, index: int)
    requires
        0 <= index < elements.len(),
        data(elements).len() <= u64::MAX,
    ensures
        ({
            let pos = offset(elements, index) as int;
            let width = compact_size::size_of_encoding(elements[index].len()) as int;
            let len = elements[index].len() as int;
            &&& compact_size::decoding(data(elements).skip(pos)) == Some((len as nat, width as nat))
            &&& data(elements).subrange(pos + width, pos + width + len) == elements[index]
        }),
{
    let new = elements[index];
    let pos = offset(elements, index) as int;
    let end = offset(elements, index + 1) as int;
    let width = compact_size::size_of_encoding(new.len()) as int;
    lemma_item_position(elements, index);
    lemma_item_len(new);
    let rest = new + data(elements).skip(end);
    assert(data(elements).skip(pos) =~= compact_size::encoding(new.len()) + rest) by {
        assert(data(elements).skip(pos) =~= data(elements).subrange(pos, end) + data(
            elements,
        ).skip(end));
    }
    compact_size::lemma_decoding_of_encoding(new.len(), rest);
    assert(data(elements).subrange(pos + width, end) =~= item(new).skip(width));
    assert(item(new).skip(width) =~= new);
}

proof fn lemma_same_data_same_prefix(
    elements1: Seq<Seq<u8>>,
    elements2: Seq<Seq<u8>>,
    count: int,
)
    requires
        data(elements1) == data(elements2),
        data(elements1).len() <= u64::MAX,
        0 <= count <= elements1.len(),
        count <= elements2.len(),
    ensures
        elements1.take(count) == elements2.take(count),
    decreases count,
{
    if count > 0 {
        let index = count - 1;
        lemma_same_data_same_prefix(elements1, elements2, index);
        lemma_data_from(elements1, index);
        lemma_data_from(elements2, index);
        assert(elements1[index] == elements2[index]);
        assert(elements1.take(count) =~= elements1.take(index).push(elements1[index]));
        assert(elements2.take(count) =~= elements2.take(index).push(elements2[index]));
    }
}

/// Lists of elements that are serialized alike are the same.
pub proof fn lemma_serialization_is_unambiguous(
    elements1: Seq<Seq<u8>>,
    elements2: Seq<Seq<u8>>,
)
    requires
        fits(elements1),
        fits(elements2),
        serialization(elements1) == serialization(elements2),
    ensures
        elements1 == elements2,
{
    compact_size::lemma_decoding_of_encoding(elements1.len(), data(elements1));
    compact_size::lemma_decoding_of_encoding(elements2.len(), data(elements2));
    compact_size::lemma_encoding_len(elements1.len());
    let header = compact_size::size_of_encoding(elements1.len()) as int;
    assert(serialization(elements1).skip(header) =~= data(elements1));
    assert(serialization(elements2).skip(header) =~= data(elements2));
    let count = elements1.len() as int;
    lemma_same_data_same_prefix(elements1, elements2, count);
    assert(elements1.take(count) =~= elements1);
    assert(elements2.take(count) =~= elements2);
}

/// Pushing onto the buffer of a list of elements gives the buffer of the longer list.
pub proof fn lemma_pushed(elements: Seq<Seq<u8>>, new: Seq<u8>)
    requires
        data(elements).len() <= u32::MAX,
    ensures
        pushed(content_of(elements), data(elements).len() as int, elements.len(), new)
            == content_of(elements.push(new)),
        data(elements.push(new)).len() == data(elements).len() + item(new).len(),
        content_of(elements.push(new)).len() == content_of(elements).len() + item(new).len() + 4,
{
    let longer = elements.push(new);
    assert(longer.drop_last() =~= elements);
    lemma_index_area_len(elements);
    lemma_index_area_len(longer);
    let start = data(elements).len() as int;
    let content = content_of(elements);
    let cursor = cursor::native_bytes(start as u32);
    cursor::lemma_native_round_trip(start as u32);
    assert(content.take(start) =~= data(elements));
    assert(content.skip(start) =~= index_area(elements));
    assert(bytes::overwritten(
        content.skip(start) + bytes::zeros(4),
        elements.len() as int * 4,
        cursor,
    ) =~= index_area(elements) + cursor);
    assert(pushed(content, start, elements.len(), new) =~= content_of(longer));
}

/// Writing a cursor, a length and an element into the gap that a rotation left gives the buffer
/// with the element pushed.
pub(crate) proof fn lemma_push_steps(content: Seq<u8>, start: int, count: nat, new: Seq<u8>)
    requires
        0 <= start,
        start + 4 * count <= content.len(),
    ensures
        ({
            let len = item(new).len();
            let gap = bytes::zeros(len);
            let rotated = content.take(start) + gap + (content.skip(start) + bytes::zeros(4));
            let indexed = bytes::overwritten(
                rotated,
                cursor::slot_start(start + len, count as int),
                cursor::native_bytes(start as u32),
            );
            let measured = bytes::overwritten(
                indexed,
                start,
                compact_size::encoding(new.len()),
            );
            bytes::overwritten(
                measured,
                start + compact_size::encoding(new.len()).len(),
                new,
            ) == pushed(content, start, count, new)
        }),
{
    let len = item(new).len();
    let gap = bytes::zeros(len);
    let front = content.take(start);
    let tail = content.skip(start) + bytes::zeros(4);
    let slot = cursor::native_bytes(start as u32);
    let size = compact_size::encoding(new.len());
    let indexed_tail = bytes::overwritten(tail, count as int * 4, slot);
    let gap1 = bytes::zeros(size.len());
    let gap2 = bytes::zeros(new.len());
    cursor::lemma_native_round_trip(start as u32);
    bytes::lemma_overwritten_behind(front + gap, tail, count as int * 4, slot);
    assert(front + gap + indexed_tail =~= front + gap1 + (gap2 + indexed_tail));
    bytes::lemma_overwritten_part(front, gap1, gap2 + indexed_tail, size);
    assert(front + size + (gap2 + indexed_tail) =~= (front + size) + gap2 + indexed_tail);
    bytes::lemma_overwritten_part(front + size, gap2, indexed_tail, new);
    assert(front + size + new + indexed_tail =~= pushed(content, start, count, new));
}

/// A buffer of the final size in which the first `index` elements and their cursors stand.
pub(crate) open spec fn filled(elements: Seq<Seq<u8>>, index: int) -> Seq<u8> {
    let done = elements.take(index);
    data(done) + bytes::zeros((data(elements).len() - data(done).len()) as nat) + (index_area(done)
        + bytes::zeros((4 * (elements.len() - index)) as nat))
}

/// Writing at the end of a filled index area, and twice at the end of filled data, moves both ends.
proof fn lemma_fill_parts(
    done: Seq<u8>,
    size: Seq<u8>,
    new: Seq<u8>,
    free: nat,
    index: Seq<u8>,
    slot: Seq<u8>,
    unindexed: nat,
)
    ensures
        ({
            let room = bytes::zeros(size.len() + new.len() + free);
            let index_room = bytes::zeros(slot.len() + unindexed);
            let pos = done.len() as int;
            let indexed = bytes::overwritten(
                done + room + (index + index_room),
                pos + room.len() + index.len(),
                slot,
            );
            let measured = bytes::overwritten(indexed, pos, size);
            bytes::overwritten(measured, pos + size.len(), new) == done + (size + new)
                + bytes::zeros(free) + (index + slot + bytes::zeros(unindexed))
        }),
{
    let room = bytes::zeros(size.len() + new.len() + free);
    let index_room = bytes::zeros(slot.len() + unindexed);
    let front = done + room + index;
    let behind = index + slot + bytes::zeros(unindexed);
    let behind_size = bytes::zeros(new.len()) + (bytes::zeros(free) + behind);
    assert(done + room + (index + index_room) =~= front + bytes::zeros(slot.len()) + bytes::zeros(
        unindexed,
    ));
    bytes::lemma_overwritten_part(front, bytes::zeros(slot.len()), bytes::zeros(unindexed), slot);
    assert(room =~= bytes::zeros(size.len()) + bytes::zeros(new.len()) + bytes::zeros(free));
    assert(front + slot + bytes::zeros(unindexed) =~= done + room + behind);
    assert(done + room + behind =~= done + bytes::zeros(size.len()) + behind_size);
    bytes::lemma_overwritten_part(done, bytes::zeros(size.len()), behind_size, size);
    assert(done + size + behind_size =~= (done + size) + bytes::zeros(new.len()) + (bytes::zeros(
        free,
    ) + behind));
    bytes::lemma_overwritten_part(
        done + size,
        bytes::zeros(new.len()),
        bytes::zeros(free) + behind,
        new,
    );
    assert(done + size + new + (bytes::zeros(free) + behind) =~= done + (size + new) + bytes::zeros(
        free,
    ) + behind);
}

/// Writing a cursor, a length and an element into a partly filled buffer fills it one element
/// further.
#[verifier::rlimit(40)]
#[verifier::spinoff_prover]
pub(crate) proof fn lemma_fill_step(elements: Seq<Seq<u8>>, index: int)
    requires
        0 <= index < elements.len(),
    ensures
        ({
            let pos = offset(elements, index) as int;
            let size = compact_size::encoding(elements[index].len());
            let indexed = bytes::overwritten(
                filled(elements, index),
                cursor::slot_start(data(elements).len() as int, index),
                cursor::native_bytes(pos as u32),
            );
            let measured = bytes::overwritten(indexed, pos, size);
            bytes::overwritten(measured, pos + size.len(), elements[index]) == filled(
                elements,
                index + 1,
            )
        }),
{
    let done = elements.take(index);
    let new = elements[index];
    let pos = offset(elements, index);
    lemma_item_position(elements, index);
    lemma_index_area_len(done);
    cursor::lemma_native_round_trip(pos as u32);
    let next = elements.take(index + 1);
    assert(next.drop_last() =~= done);
    assert(next.last() == new);
    assert(data(next) == data(done) + item(new));
    assert(index_area(next) == index_area(done) + cursor::native_bytes(pos as u32));
    let free = (data(elements).len() - pos - item(new).len()) as nat;
    let unindexed = (4 * (elements.len() - index - 1)) as nat;
    assert(data(elements).len() - data(done).len() == item(new).len() + free);
    assert(data(elements).len() - data(next).len() == free);
    lemma_fill_parts(
        data(done),
        compact_size::encoding(new.len()),
        new,
        free,
        index_area(done),
        cursor::native_bytes(pos as u32),
        unindexed,
    );
}

/// A list that fits still does with one more element, if that starts within 32 bits and the buffer
/// does not grow too large.
pub proof fn lemma_fits_push(elements: Seq<Seq<u8>>, new: Seq<u8>)
    requires
        fits(elements),
        data(elements).len() <= u32::MAX,
        content_of(elements).len() + item(new).len() + 4 <= isize::MAX,
    ensures
        fits(elements.push(new)),
{
    let longer = elements.push(new);
    lemma_pushed(elements, new);
    lemma_index_area_len(longer);
    assert forall|i: int| 0 <= i < longer.len() implies #[trigger] offset(longer, i)
        <= u32::MAX by {
        assert(longer.take(i) =~= elements.take(i));
        if i == elements.len() {
            assert(elements.take(i) =~= elements);
        } else {
            assert(offset(elements, i) <= u32::MAX);
        }
    }
}

/// Returns the element that stands at `pos`.
pub(crate) fn read_element(content: &[u8], pos: usize) -> (read: &[u8])
    requires
        readable_at(content@, pos as int),
    ensures
        read@ == element_at(content@, pos as int),
{
    let mut slice: &[u8] = slice_subrange(content, pos, content.len());
    let ghost tail = content@.skip(pos as int);
    assert(slice@ =~= tail);
    let len: u64 = compact_size::decode_unchecked(&mut slice);
    #[verifier::truncate]
    let end: usize = len as usize;
    let ghost width = (compact_size::decoding(tail)->0).1;
    proof {
        compact_size::lemma_decoding_bound(tail);
    }
    let read: &[u8] = slice_subrange(slice, 0, end);
    assert(read@ =~= content@.subrange(pos + width, pos + width + end));
    read
}

/// Returns whether an element can be read at `pos`.
pub(crate) fn can_read_at(content: &[u8], pos: usize) -> (can: bool)
    ensures
        can == readable_at(content@, pos as int),
{
    if pos > content.len() {
        return false;
    }
    let mut slice: &[u8] = slice_subrange(content, pos, content.len());
    let ghost tail = content@.skip(pos as int);
    assert(slice@ =~= tail);
    if !compact_size::can_decode(slice) {
        return false;
    }
    proof {
        compact_size::lemma_decoding_bound(tail);
    }
    let len: u64 = compact_size::decode_unchecked(&mut slice);
    #[verifier::truncate]
    let end: usize = len as usize;
    end <= slice.len()
}

/// Two lists one behind the other are laid out one behind the other.
pub proof fn lemma_data_of_lists(first: Seq<Seq<u8>>, second: Seq<Seq<u8>>)
    ensures
        data(first + second) == data(first) + data(second),
    decreases second.len(),
{
    if second.len() == 0 {
        assert(first + second =~= first);
        assert(data(first) + data(second) =~= data(first));
    } else {
        lemma_data_of_lists(first, second.drop_last());
        assert((first + second).drop_last() =~= first + second.drop_last());
        assert((first + second).last() == second.last());
        assert(data(first + second) =~= data(first) + data(second));
    }
}

/// A single element is laid out as its length and then all of its bytes; no element takes no bytes.
pub proof fn lemma_data_of_one(element: Seq<u8>)
    requires
        element.len() <= u64::MAX,
    ensures
        data(Seq::empty()) == Seq::<u8>::empty(),
        data(seq![element]) == item(element),
        ({
            let b = item(element);
            let len = element.len();
            &&& len < 0xFD ==> b.len() == 1 + len && b[0] == len && b.skip(1) == element
            &&& 0xFD <= len <= 0xFFFF ==> b.len() == 3 + len && b[0] == 0xFD && b[1] + 0x100 * b[2]
                == len && b.skip(3) == element
            &&& 0xFFFF < len <= 0xFFFF_FFFF ==> b.len() == 5 + len && b[0] == 0xFE && b[1] + 0x100
                * b[2] + 0x1_0000 * b[3] + 0x100_0000 * b[4] == len && b.skip(5) == element
            &&& 0xFFFF_FFFF < len ==> b.len() == 9 + len && b[0] == 0xFF && b[1] + 0x100 * b[2]
                + 0x1_0000 * b[3] + 0x100_0000 * b[4] + 0x1_0000_0000 * b[5] + 0x100_0000_0000 * b[6]
                + 0x1_0000_0000_0000 * b[7] + 0x100_0000_0000_0000 * b[8] == len && b.skip(9)
                == element
        }),
{
    let one = seq![element];
    assert(one.drop_last() =~= Seq::empty());
    reveal_with_fuel(data, 2);
    assert(data(one) =~= item(element));
    compact_size::lemma_encoding_bytes(element.len());
    let width = compact_size::encoding(element.len()).len();
    assert(item(element).skip(width as int) =~= element);
    assert forall|i: int| 0 <= i < width implies item(element)[i] == compact_size::encoding(
        element.len(),
    )[i] by {}
}

/// The first element starts at the start, and each one starts behind the length and the bytes of
/// the one before it. The data ends behind the last element.
pub proof fn lemma_offsets(elements: Seq<Seq<u8>>, index: int)
    requires
        0 <= index < elements.len(),
    ensures
        offset(elements, 0) == 0,
        offset(elements, index + 1) - offset(elements, index) == elements[index].len() + (if elements[index].len()
            < 0xFD {
            1int
        } else if elements[index].len() < 0x1_0000 {
            3
        } else if elements[index].len() < 0x1_0000_0000 {
            5
        } else {
            9
        }),
        offset(elements, elements.len() as int) == data(elements).len(),
{
    lemma_item_position(elements, index);
    lemma_item_len(elements[index]);
    compact_size::lemma_encoding_sizes(elements[index].len());
    assert(elements.take(0) =~= Seq::empty());
    assert(elements.take(elements.len() as int) =~= elements);
}

proof fn lemma_offsets_grow(elements: Seq<Seq<u8>>, index: int, later: int)
    requires
        0 <= index <= later <= elements.len(),
    ensures
        offset(elements, index) <= offset(elements, later),
    decreases later - index,
{
    if index < later {
        lemma_item_position(elements, index);
        lemma_offsets_grow(elements, index + 1, later);
    }
}

/// A list fits if the whole buffer is no larger than an allocation can be, and its last element
/// starts within 32 bits. So a list without elements fits, and with a list all its beginnings.
pub proof fn lemma_fits(elements: Seq<Seq<u8>>, count: int)
    requires
        0 <= count <= elements.len(),
    ensures
        fits(elements) <==> {
            &&& data(elements).len() + 4 * elements.len() <= isize::MAX
            &&& elements.len() > 0 ==> offset(elements, elements.len() - 1) <= u32::MAX
        },
        fits(Seq::empty()),
        fits(elements) ==> fits(elements.take(count)),
{
    let last = elements.len() - 1;
    if elements.len() > 0 && offset(elements, last) <= u32::MAX {
        assert forall|i: int| 0 <= i < elements.len() implies #[trigger] offset(elements, i)
            <= u32::MAX by {
            lemma_offsets_grow(elements, i, last);
        }
    }
    let part = elements.take(count);
    if fits(elements) {
        lemma_offsets_grow(elements, count, elements.len() as int);
        assert(elements.take(elements.len() as int) =~= elements);
        assert forall|i: int| 0 <= i < part.len() implies #[trigger] offset(part, i)
            <= u32::MAX by {
            assert(part.take(i) =~= elements.take(i));
            assert(offset(elements, i) <= u32::MAX);
        }
    }
}

/// A buffer holds the data and then four bytes for each element.
pub proof fn lemma_content_parts(elements: Seq<Seq<u8>>)
    ensures
        content_of(elements).len() == data(elements).len() + 4 * elements.len(),
        content_of(elements).take(data(elements).len() as int) == data(elements),
        content_of(elements).skip(data(elements).len() as int) == index_area(elements),
{
    lemma_index_area_len(elements);
    assert(content_of(elements).take(data(elements).len() as int) =~= data(elements));
    assert(content_of(elements).skip(data(elements).len() as int) =~= index_area(elements));
}

/// Elements are serialized as their number and then the data.
pub proof fn lemma_serialization_bytes(elements: Seq<Seq<u8>>)
    requires
        elements.len() <= u64::MAX,
    ensures
        ({
            let b = serialization(elements);
            let count = elements.len();
            &&& count < 0xFD ==> b[0] == count && b.skip(1) == data(elements)
            &&& 0xFD <= count <= 0xFFFF ==> b[0] == 0xFD && b[1] + 0x100 * b[2] == count && b.skip(3)
                == data(elements)
            &&& 0xFFFF < count <= 0xFFFF_FFFF ==> b[0] == 0xFE && b[1] + 0x100 * b[2] + 0x1_0000
                * b[3] + 0x100_0000 * b[4] == count && b.skip(5) == data(elements)
            &&& 0xFFFF_FFFF < count ==> b[0] == 0xFF && b[1] + 0x100 * b[2] + 0x1_0000 * b[3]
                + 0x100_0000 * b[4] + 0x1_0000_0000 * b[5] + 0x100_0000_0000 * b[6]
                + 0x1_0000_0000_0000 * b[7] + 0x100_0000_0000_0000 * b[8] == count && b.skip(9)
                == data(elements)
            &&& b.len() - data(elements).len() == if count < 0xFD {
                1int
            } else if count < 0x1_0000 {
                3
            } else if count < 0x1_0000_0000 {
                5
            } else {
                9
            }
        }),
{
    compact_size::lemma_encoding_bytes(elements.len());
    let header = compact_size::encoding(elements.len());
    assert(serialization(elements).skip(header.len() as int) =~= data(elements));
    assert forall|i: int| 0 <= i < header.len() implies serialization(elements)[i] == header[i] by {
    }
}

/// Reading at a position, byte by byte: the bytes there give the length, the element is as many
/// bytes behind them, and it can be read exactly if all these bytes are there.
pub proof fn lemma_reading_bytes(content: Seq<u8>, pos: int)
    requires
        0 <= pos,
    ensures
        pos >= content.len() ==> !readable_at(content, pos),
        pos < content.len() && content[pos] < 0xFD ==> {
            let end = pos + 1 + content[pos];
            &&& readable_at(content, pos) <==> end <= content.len()
            &&& readable_at(content, pos) ==> element_at(content, pos) == content.subrange(
                pos + 1,
                end,
            )
        },
        pos < content.len() && content[pos] == 0xFD ==> {
            let end = pos + 3 + content[pos + 1] + 0x100 * content[pos + 2];
            &&& readable_at(content, pos) <==> pos + 3 <= content.len() && end <= content.len()
            &&& readable_at(content, pos) ==> element_at(content, pos) == content.subrange(
                pos + 3,
                end,
            )
        },
        pos < content.len() && content[pos] == 0xFE ==> {
            let end = pos + 5 + content[pos + 1] + 0x100 * content[pos + 2] + 0x1_0000 * content[pos
                + 3] + 0x100_0000 * content[pos + 4];
            &&& readable_at(content, pos) <==> pos + 5 <= content.len() && end <= content.len()
            &&& readable_at(content, pos) ==> element_at(content, pos) == content.subrange(
                pos + 5,
                end,
            )
        },
        pos < content.len() && content[pos] == 0xFF ==> {
            let len = (content[pos + 1] + 0x100 * content[pos + 2] + 0x1_0000 * content[pos + 3]
                + 0x100_0000 * content[pos + 4] + 0x1_0000_0000 * content[pos + 5] + 0x100_0000_0000
                * content[pos + 6] + 0x1_0000_0000_0000 * content[pos + 7] + 0x100_0000_0000_0000
                * content[pos + 8]) as usize;
            let end = pos + 9 + len;
            &&& readable_at(content, pos) <==> pos + 9 <= content.len() && end <= content.len()
            &&& readable_at(content, pos) ==> element_at(content, pos) == content.subrange(
                pos + 9,
                end,
            )
        },
{
    if pos <= content.len() {
        let b = content.skip(pos);
        compact_size::lemma_decoding_bytes(b);
        assert forall|i: int| 0 <= i < b.len() implies b[i] == content[pos + i] by {}
    }
}

/// Wherever an element stands behind its length, it is read whole, whatever is around it.
pub proof fn lemma_element_is_read(before: Seq<u8>, element: Seq<u8>, behind: Seq<u8>)
    requires
        element.len() <= usize::MAX,
    ensures
        readable_at(before + data(seq![element]) + behind, before.len() as int),
        element_at(before + data(seq![element]) + behind, before.len() as int) == element,
{
    let content = before + data(seq![element]) + behind;
    lemma_data_of_one(element);
    compact_size::lemma_decoding_of_encoding(element.len(), element + behind);
    compact_size::lemma_encoding_len(element.len());
    assert(content.skip(before.len() as int) =~= compact_size::encoding(element.len()) + (element
        + behind));
    assert(element_at(content, before.len() as int) =~= element);
}

/// There are as many cursors as whole groups of four bytes from the start of the index area on. Each
/// element is what stands where its cursor points, and a buffer can be gone through if all that the
/// cursors point to can be read.
pub proof fn lemma_cursors_and_elements(content: Seq<u8>, start: int, count: nat, index: int)
    requires
        0 <= start,
        0 <= index < count,
    ensures
        index < slots(content, start) <==> start + 4 * index + 4 <= content.len(),
        element(content, start, index) == element_at(
            content,
            cursor::cursor_at(content, start, index) as int,
        ),
        readable(content, start, index) <==> (start + 4 * index + 4 <= content.len() ==> readable_at(
            content,
            cursor::cursor_at(content, start, index) as int,
        )),
        elements_of(content, start, count).len() == count,
        elements_of(content, start, count)[index] == element(content, start, index),
        walkable(content, start) <==> forall|i: int|
            0 <= i && start + 4 * i + 4 <= content.len() ==> readable_at(
                content,
                #[trigger] cursor::cursor_at(content, start, i) as int,
            ),
{
}

/// A well-formed buffer is made up of nothing but the data and the cursors of its elements.
pub proof fn lemma_well_formed_parts(content: Seq<u8>, start: int, count: nat)
    ensures
        well_formed(content, start, count) <==> {
            let elements = elements_of(content, start, count);
            &&& content.len() == start + 4 * count
            &&& content.take(start) == data(elements)
            &&& content.skip(start) == index_area(elements)
            &&& content.len() <= isize::MAX
            &&& start == data(elements).len()
            &&& count > 0 ==> offset(elements, count - 1) <= u32::MAX
        },
{
    let elements = elements_of(content, start, count);
    lemma_fits(elements, 0);
    lemma_content_parts(elements);
    if start == data(elements).len() && content.len() == start + 4 * count {
        assert(content =~= content.take(start) + content.skip(start));
    }
}

/// A push leaves what stands before the index area, puts the item behind it, and writes the
/// position of the new element as the cursor with the number `count`. The other bytes of the index
/// area stay in their order, and it is four bytes longer.
pub proof fn lemma_pushed_parts(content: Seq<u8>, start: int, count: nat, new: Seq<u8>)
    requires
        0 <= start <= u32::MAX,
        start + 4 * count <= content.len(),
    ensures
        ({
            let after = pushed(content, start, count, new);
            let len = data(seq![new]).len() as int;
            let at = 4 * count as int;
            &&& after.len() == content.len() + len + 4
            &&& after.take(start) == content.take(start)
            &&& after.subrange(start, start + len) == data(seq![new])
            &&& cursor::cursor_at(after, start + len, count as int) == start
            &&& after.subrange(start + len, start + len + at) == content.subrange(start, start + at)
            &&& forall|i: int|
                start + at + 4 <= i < content.len() + 4 ==> #[trigger] after[len + i] == if i
                    < content.len() {
                    content[i]
                } else {
                    0
                }
        }),
{
    let after = pushed(content, start, count, new);
    let one = seq![new];
    assert(one.drop_last() =~= Seq::empty());
    reveal_with_fuel(data, 2);
    assert(data(one) =~= item(new));
    let len = item(new).len() as int;
    let at = 4 * count as int;
    let slot = cursor::native_bytes(start as u32);
    cursor::lemma_native_round_trip(start as u32);
    bytes::lemma_overwritten(content.skip(start) + bytes::zeros(4), at, slot);
    assert(after.take(start) =~= content.take(start));
    assert(after.subrange(start, start + len) =~= item(new));
    assert(after.subrange(start + len + at, start + len + at + 4) =~= slot);
    assert(after.subrange(start + len, start + len + at) =~= content.subrange(start, start + at));
    assert forall|i: int| start + at + 4 <= i < content.len() + 4 implies #[trigger] after[len + i]
        == if i < content.len() {
        content[i]
    } else {
        0
    } by {
        let area = bytes::overwritten(content.skip(start) + bytes::zeros(4), at, slot);
        assert(after[len + i] == area[i - start]);
    }
}

} // verus!
