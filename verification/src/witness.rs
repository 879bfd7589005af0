//! The witness: a stack of byte strings kept in one buffer.

use crate::bytes::{self, AsBytes};
use crate::compact_size;
use crate::cursor;
use crate::iter::Iter;
use crate::layout;
use crate::order;
use vstd::prelude::*;
use vstd::slice::slice_to_vec;

verus! {

/// The data used to unlock bitcoin since the segwit upgrade.
///
/// Can be logically seen as an array of byte strings, i.e. `Vec<Vec<u8>>`, and it is serialized on
/// the wire in that format. [`Witness::from_slice`] and [`Witness::to_bytes`] convert between the
/// two.
///
/// It is stored as a single `Vec`, which saves allocations.
#[derive(Eq, Ord, Hash)]
pub struct Witness {
    /// The elements, each behind its length as a compact size integer, then the index area.
    ///
    /// The number of elements does not stand in front of them. The index area holds four bytes per
    /// element: the position at which the element starts.
    content: Vec<u8>,
    /// The number of elements.
    ///
    /// Kept apart from `content`, so that [`Witness::push`] need not shift the whole buffer.
    witness_elements: usize,
    /// The position in `content` at which the index area begins.
    ///
    /// Said another way, the total length of all elements with their lengths.
    indices_start: usize,
}

/// The list of byte strings that a witness stands for.
impl View for Witness {
    type V = Seq<Seq<u8>>;

    open spec fn view(&self) -> Seq<Seq<u8>> {
        layout::elements_of(self.content_bytes(), self.index_start(), self.element_count())
    }
}

impl Witness {
    /// The buffer.
    pub closed spec fn content_bytes(&self) -> Seq<u8> {
        self.content@
    }

    /// The number of elements.
    pub closed spec fn element_count(&self) -> nat {
        self.witness_elements as nat
    }

    /// The position in the buffer at which the index area begins.
    pub closed spec fn index_start(&self) -> int {
        self.indices_start as int
    }

    /// Whether the buffer is that of the elements which its index area points to.
    ///
    /// It holds of every new witness but one from [`Witness::from_parts__unstable`], and every
    /// operation keeps it.
    pub open spec fn wf(&self) -> bool {
        layout::well_formed(self.content_bytes(), self.index_start(), self.element_count())
    }

    /// The elements that the whole index area points to.
    ///
    /// Of a well-formed witness these are its elements.
    pub open spec fn indexed_elements(&self) -> Seq<Seq<u8>> {
        layout::elements_of(
            self.content_bytes(),
            self.index_start(),
            layout::slots(self.content_bytes(), self.index_start()),
        )
    }

    /// Whether looking up element number `index` stays within the buffer.
    pub open spec fn lookup_safe(&self, index: int) -> bool {
        self.wf() || layout::readable(self.content_bytes(), self.index_start(), index)
    }

    /// Whether going through all elements stays within the buffer.
    pub open spec fn walk_safe(&self) -> bool {
        self.wf() || layout::walkable(self.content_bytes(), self.index_start())
    }

    /// The number of bytes of the element counter and of the elements that the whole index area
    /// points to, each with its length in front of it.
    pub open spec fn total_size(&self) -> nat {
        compact_size::size_of_encoding(self.element_count()) + layout::data(
            self.indexed_elements(),
        ).len()
    }

    /// Whether counting the bytes stays within the buffer and within a `usize`.
    pub open spec fn size_safe(&self) -> bool {
        self.wf() || {
            &&& layout::walkable(self.content_bytes(), self.index_start())
            &&& self.total_size() <= usize::MAX
        }
    }

    /// Whether one more element of length `len` can be pushed.
    ///
    /// The position of the new element fits in 32 bits, the new cursor lies in the grown buffer,
    /// and that stays within the largest size of an allocation.
    pub open spec fn push_safe(&self, len: nat) -> bool {
        &&& self.index_start() <= u32::MAX
        &&& cursor::slot_start(self.index_start(), self.element_count() as int)
            <= self.content_bytes().len()
        &&& self.content_bytes().len() + compact_size::size_of_encoding(len) + len + 4 <= isize::MAX
    }

    /// The parts of any witness, well-formed or not, are within the limits of the machine.
    pub proof fn lemma_parts(&self)
        ensures
            self.content_bytes().len() <= usize::MAX,
            self.element_count() <= usize::MAX,
            0 <= self.index_start() <= usize::MAX,
    {
        assert(self.content@.len() == self.content.len());
    }

    /// What well-formedness gives: the elements are laid out in the buffer, and can be read.
    pub(crate) proof fn lemma_wf(&self)
        requires
            self.wf(),
        ensures
            layout::fits(self@),
            self@.len() == self.element_count(),
            self.content_bytes() == layout::content_of(self@),
            self.index_start() == layout::data(self@).len(),
            self.content_bytes().len() == self.index_start() + 4 * self.element_count(),
            layout::slots(self.content_bytes(), self.index_start()) == self@.len(),
            self.indexed_elements() == self@,
            layout::walkable(self.content_bytes(), self.index_start()),
    {
        layout::lemma_layout_reads_back(self@);
        layout::lemma_index_area_len(self@);
    }

    /// A well-formed witness can be read everywhere.
    proof fn lemma_wf_readable(&self, index: int)
        requires
            self.wf(),
            0 <= index,
        ensures
            cursor::has_slot(self.content_bytes(), self.index_start(), index) <==> index < self@.len(),
            layout::readable(self.content_bytes(), self.index_start(), index),
            index < self@.len() ==> layout::element(self.content_bytes(), self.index_start(), index)
                == self@[index],
    {
        self.lemma_wf();
        if index < self@.len() {
            layout::lemma_element_reads_back(self@, index);
        }
    }

    /// A witness that is safe to go through has an index area that is.
    pub(crate) proof fn lemma_walk(&self)
        requires
            self.walk_safe(),
        ensures
            0 <= self.index_start(),
            layout::walkable(self.content_bytes(), self.index_start()),
            self.wf() ==> {
                &&& self.indexed_elements() == self@
                &&& self@.len() == self.element_count()
                &&& layout::data(self@).len() + 9 <= usize::MAX
            },
    {
        if self.wf() {
            self.lemma_wf();
        }
    }

    /// Creates a new empty [`Witness`].
    pub fn new() -> (witness: Self)
        ensures
            witness.wf(),
            witness@ == Seq::<Seq<u8>>::empty(),
            witness.content_bytes() == Seq::<u8>::empty(),
            witness.element_count() == 0,
            witness.index_start() == 0,
    {
        let witness: Witness = Witness {
            content: Vec::new(),
            witness_elements: 0,
            indices_start: 0,
        };
        assert(witness@ =~= Seq::<Seq<u8>>::empty());
        assert(witness.content_bytes() =~= layout::content_of(witness@));
        witness
    }

    /// Creates a new [`Witness`] from inner parts.
    ///
    /// The parts are taken as they are: nothing checks that the witness is well formed. This
    /// function leaks implementation details and should not be relied upon.
    #[allow(non_snake_case)]
    pub fn from_parts__unstable(
        content: Vec<u8>,
        witness_elements: usize,
        indices_start: usize,
    ) -> (witness: Self)
        ensures
            witness.content_bytes() == content@,
            witness.element_count() == witness_elements,
            witness.index_start() == indices_start,
    {
        Witness { content, witness_elements, indices_start }
    }

    /// Creates a [`Witness`] object from a slice of bytes slices where each slice is a witness item.
    pub fn from_slice<T: AsBytes>(slice: &[T]) -> (witness: Self)
        requires
            layout::fits(bytes::byte_strings(slice@)),
        ensures
            witness.wf(),
            witness@ == bytes::byte_strings(slice@),
            witness.content_bytes() == layout::content_of(bytes::byte_strings(slice@)),
            witness.element_count() == slice@.len(),
            witness.index_start() == layout::data(bytes::byte_strings(slice@)).len(),
    {
        let ghost elements = bytes::byte_strings(slice@);
        let witness_elements: usize = slice.len();
        let index_size: usize = witness_elements * 4;
        let content_size: usize = items_size(slice);
        let mut content: Vec<u8> = vec![0u8; content_size + index_size];
        let mut cursor: usize = 0;
        let mut i: usize = 0;
        assert(content@ =~= layout::filled(elements, 0)) by {
            assert(elements.take(0) =~= Seq::empty());
        }
        while i < witness_elements
            invariant
                elements == bytes::byte_strings(slice@),
                layout::fits(elements),
                i <= witness_elements,
                witness_elements == elements.len(),
                witness_elements == slice@.len(),
                content_size == layout::data(elements).len(),
                cursor == layout::offset(elements, i as int),
                content@ == layout::filled(elements, i as int),
                content@.len() == content_size + 4 * witness_elements,
                content@.len() <= isize::MAX,
            decreases witness_elements - i,
        {
            proof {
                layout::lemma_fill_step(elements, i as int);
                layout::lemma_item_position(elements, i as int);
                layout::lemma_item_len(elements[i as int]);
                compact_size::lemma_encoding_len(elements[i as int].len());
                cursor::lemma_native_round_trip(cursor as u32);
                assert(layout::offset(elements, i as int) <= u32::MAX);
            }
            let elem: &[u8] = slice[i].as_byte_slice();
            assert(elem@ == elements[i as int]);
            cursor::encode_cursor(content.as_mut_slice(), content_size, i, cursor);
            let encoded: Vec<u8> = compact_size::encode(elem.len());
            let encoded_size: usize = encoded.len();
            bytes::overwrite(content.as_mut_slice(), cursor, encoded.as_slice());
            cursor = cursor + encoded_size;
            bytes::overwrite(content.as_mut_slice(), cursor, elem);
            cursor = cursor + elem.len();
            i = i + 1;
        }
        let witness: Witness = Witness { witness_elements, content, indices_start: content_size };
        proof {
            assert(elements.take(elements.len() as int) =~= elements);
            assert(layout::filled(elements, elements.len() as int) =~= layout::content_of(
                elements,
            ));
            layout::lemma_layout_reads_back(elements);
        }
        witness
    }

    /// Returns whether a witness can hold the items of `slice`.
    pub fn can_hold<T: AsBytes>(slice: &[T]) -> (can: bool)
        ensures
            can == layout::fits(bytes::byte_strings(slice@)),
    {
        let ghost elements = bytes::byte_strings(slice@);
        let limit: usize = isize::MAX as usize;
        let mut cursor: usize = 0;
        let mut i: usize = 0;
        assert(elements.take(0) =~= Seq::empty());
        while i < slice.len()
            invariant
                elements == bytes::byte_strings(slice@),
                limit == isize::MAX,
                i <= slice@.len(),
                cursor == layout::offset(elements, i as int),
                cursor <= limit,
                forall|j: int| 0 <= j < i ==> #[trigger] layout::offset(elements, j) <= u32::MAX,
            decreases slice@.len() - i,
        {
            proof {
                layout::lemma_item_position(elements, i as int);
                layout::lemma_item_len(elements[i as int]);
            }
            let len: usize = slice[i].as_byte_slice().len();
            let size: usize = compact_size::encoded_size(len);
            if cursor > u32::MAX as usize {
                assert(layout::offset(elements, i as int) > u32::MAX);
                return false;
            }
            if len > limit || size > limit - len || cursor > limit - len - size {
                return false;
            }
            cursor = cursor + (size + len);
            i = i + 1;
        }
        assert(elements.take(elements.len() as int) =~= elements);
        slice.len() <= (limit - cursor) / 4
    }

    /// Convenience method to create an array of byte-arrays from this witness.
    pub fn to_bytes(&self) -> (elements: Vec<Vec<u8>>)
        requires
            self.walk_safe(),
        ensures
            bytes::byte_strings(elements@) == self.indexed_elements(),
            self.wf() ==> bytes::byte_strings(elements@) == self@,
    {
        proof {
            self.lemma_walk();
        }
        let mut elements: Vec<Vec<u8>> = Vec::new();
        let mut iter: Iter = self.iter();
        let mut done: bool = false;
        while !done
            invariant
                iter.content_bytes() == self.content_bytes(),
                iter.index_start() == self.index_start(),
                layout::walkable(self.content_bytes(), self.index_start()),
                0 <= self.index_start(),
                iter.position() == elements@.len(),
                iter.position() <= layout::slots(self.content_bytes(), self.index_start()),
                forall|i: int|
                    0 <= i < elements@.len() ==> #[trigger] elements@[i]@ == layout::element(
                        self.content_bytes(),
                        self.index_start(),
                        i,
                    ),
                done ==> elements@.len() == layout::slots(
                    self.content_bytes(),
                    self.index_start(),
                ),
            decreases
                    layout::slots(self.content_bytes(), self.index_start()) - iter.position(),
                    !done as int,
        {
            proof {
                layout::lemma_slots(self.content_bytes(), self.index_start(), iter.position());
            }
            match iter.next() {
                Some(slice) => elements.push(slice_to_vec(slice)),
                None => done = true,
            }
        }
        assert(bytes::byte_strings(elements@) =~= self.indexed_elements());
        elements
    }

    /// Returns an [`Iter`] over the elements.
    pub fn iter(&self) -> (iter: Iter<'_>)
        ensures
            iter.content_bytes() == self.content_bytes(),
            iter.index_start() == self.index_start(),
            iter.position() == 0,
            iter@ == self.indexed_elements(),
            self.wf() ==> iter.wf() && iter@ == self@,
    {
        let iter: Iter = Iter::start(self.content.as_slice(), self.indices_start);
        proof {
            assert(iter@ =~= self.indexed_elements());
            if self.wf() {
                self.lemma_wf();
            }
        }
        iter
    }

    /// Returns the number of bytes this witness contributes to a transactions total size.
    pub fn size(&self) -> (size: usize)
        requires
            self.size_safe(),
        ensures
            size == self.total_size(),
            self.wf() ==> size == layout::serialization(self@).len(),
    {
        proof {
            self.lemma_walk();
            compact_size::lemma_encoding_len(self.element_count());
            if self.wf() {
                self.lemma_wf();
            }
        }
        self.checked_size().unwrap()
    }

    /// Returns whether the number of bytes this witness contributes to a transactions total size
    /// can be counted.
    ///
    /// It always can for a well-formed witness.
    pub fn is_size_safe(&self) -> (safe: bool)
        ensures
            safe == self.size_safe(),
    {
        proof {
            compact_size::lemma_encoding_len(self.element_count());
            if self.wf() {
                self.lemma_wf();
            }
        }
        self.is_walkable() && self.checked_size().is_some()
    }

    /// Returns the total size, or `None` if it is too large for a `usize`.
    fn checked_size(&self) -> (size: Option<usize>)
        requires
            layout::walkable(self.content_bytes(), self.index_start()),
        ensures
            size is Some <==> self.total_size() <= usize::MAX,
            size matches Some(total) ==> total == self.total_size(),
    {
        let ghost elements = self.indexed_elements();
        let header: usize = compact_size::encoded_size(self.witness_elements);
        let mut size: usize = header;
        let mut iter: Iter = self.iter();
        let mut done: bool = false;
        assert(elements.take(0) =~= Seq::empty());
        while !done
            invariant
                elements == self.indexed_elements(),
                header == compact_size::size_of_encoding(self.element_count()),
                iter.content_bytes() == self.content_bytes(),
                iter.index_start() == self.index_start(),
                layout::walkable(self.content_bytes(), self.index_start()),
                0 <= self.index_start(),
                0 <= iter.position() <= layout::slots(self.content_bytes(), self.index_start()),
                size == header + layout::offset(elements, iter.position()),
                done ==> iter.position() == elements.len(),
            decreases
                    layout::slots(self.content_bytes(), self.index_start()) - iter.position(),
                    !done as int,
        {
            let ghost position = iter.position();
            proof {
                layout::lemma_slots(self.content_bytes(), self.index_start(), position);
                if position < elements.len() {
                    layout::lemma_item_position(elements, position);
                    layout::lemma_item_len(elements[position]);
                }
            }
            match iter.next() {
                Some(witness_element) => {
                    let len: usize = witness_element.len();
                    let encoded: usize = compact_size::encoded_size(len);
                    if len > usize::MAX - encoded || size > usize::MAX - encoded - len {
                        return None;
                    }
                    size = size + (encoded + len);
                },
                None => done = true,
            }
        }
        assert(elements.take(elements.len() as int) =~= elements);
        Some(size)
    }

    /// Returns whether all elements that the index area points to can be read.
    ///
    /// They always can in a well-formed witness.
    pub fn is_walkable(&self) -> (can: bool)
        ensures
            can == layout::walkable(self.content_bytes(), self.index_start()),
            self.wf() ==> can,
    {
        let len: usize = self.content.len();
        let start: usize = self.indices_start;
        proof {
            if self.wf() {
                self.lemma_wf();
            }
        }
        let slots: usize = if start > len {
            0
        } else {
            (len - start) / 4
        };
        let mut i: usize = 0;
        while i < slots
            invariant
                i <= slots,
                self.wf() ==> layout::walkable(self.content_bytes(), self.index_start()),
                start == self.index_start(),
                slots == layout::slots(self.content_bytes(), self.index_start()),
                forall|j: int|
                    0 <= j < i ==> layout::readable_at(
                        self.content_bytes(),
                        #[trigger] cursor::cursor_at(
                            self.content_bytes(),
                            self.index_start(),
                            j,
                        ) as int,
                    ),
            decreases slots - i,
        {
            proof {
                layout::lemma_slots(self.content_bytes(), self.index_start(), i as int);
            }
            match cursor::decode_cursor(self.content.as_slice(), start, i) {
                Some(pos) => {
                    if !layout::can_read_at(self.content.as_slice(), pos) {
                        assert(!layout::readable_at(
                            self.content_bytes(),
                            cursor::cursor_at(
                                self.content_bytes(),
                                self.index_start(),
                                i as int,
                            ) as int,
                        ));
                        return false;
                    }
                },
                None => {},
            }
            i = i + 1;
        }
        true
    }

    /// Returns the element that stands at `index` in the buffer.
    ///
    /// The index should be the result of calling `decode_cursor`.
    fn element_at(&self, index: usize) -> (read: Option<&[u8]>)
        requires
            layout::readable_at(self.content_bytes(), index as int),
        ensures
            read is Some,
            read->0@ == layout::element_at(self.content_bytes(), index as int),
    {
        Some(layout::read_element(self.content.as_slice(), index))
    }

    /// Returns the last element in the witness, if any.
    pub fn last(&self) -> (last: Option<&[u8]>)
        requires
            self.element_count() > 0 ==> self.lookup_safe(self.element_count() - 1),
        ensures
            last is Some <==> self.element_count() > 0 && cursor::has_slot(
                self.content_bytes(),
                self.index_start(),
                self.element_count() - 1,
            ),
            last matches Some(read) ==> read@ == self@[self@.len() - 1],
            self.wf() ==> (last is Some <==> self@.len() > 0),
    {
        if self.witness_elements == 0 {
            None
        } else {
            self.nth(self.witness_elements - 1)
        }
    }

    /// Returns the second-to-last element in the witness, if any.
    pub fn second_to_last(&self) -> (second: Option<&[u8]>)
        requires
            self.element_count() > 1 ==> self.lookup_safe(self.element_count() - 2),
        ensures
            second is Some <==> self.element_count() > 1 && cursor::has_slot(
                self.content_bytes(),
                self.index_start(),
                self.element_count() - 2,
            ),
            second matches Some(read) ==> read@ == self@[self@.len() - 2],
            self.wf() ==> (second is Some <==> self@.len() > 1),
    {
        if self.witness_elements <= 1 {
            None
        } else {
            self.nth(self.witness_elements - 2)
        }
    }

    /// Returns whether element number `index` can be looked up.
    ///
    /// It always can in a well-formed witness.
    pub fn can_look_up(&self, index: usize) -> (can: bool)
        ensures
            can == self.lookup_safe(index as int),
    {
        proof {
            if self.wf() {
                self.lemma_wf_readable(index as int);
            }
        }
        match cursor::decode_cursor(self.content.as_slice(), self.indices_start, index) {
            None => true,
            Some(pos) => layout::can_read_at(self.content.as_slice(), pos),
        }
    }

    /// Return the nth element in the witness, if any
    pub fn nth(&self, index: usize) -> (nth: Option<&[u8]>)
        requires
            self.lookup_safe(index as int),
        ensures
            nth is Some <==> cursor::has_slot(
                self.content_bytes(),
                self.index_start(),
                index as int,
            ),
            nth matches Some(read) ==> read@ == layout::element(
                self.content_bytes(),
                self.index_start(),
                index as int,
            ),
            self.wf() ==> (nth is Some <==> index < self@.len()),
            self.wf() ==> (nth matches Some(read) ==> read@ == self@[index as int]),
    {
        proof {
            if self.wf() {
                self.lemma_wf_readable(index as int);
            }
        }
        match cursor::decode_cursor(self.content.as_slice(), self.indices_start, index) {
            None => None,
            Some(pos) => self.element_at(pos),
        }
    }

    /// Returns `true` if the witness contains no element.
    pub fn is_empty(&self) -> (empty: bool)
        ensures
            empty <==> self.element_count() == 0,
            empty <==> self@.len() == 0,
    {
        self.witness_elements == 0
    }

    /// Returns the number of elements this witness holds.
    pub fn len(&self) -> (len: usize)
        ensures
            len == self.element_count(),
            len == self@.len(),
    {
        self.witness_elements
    }

    /// Returns the position in the buffer at which the index area begins.
    pub(crate) fn indices_start(&self) -> (start: usize)
        ensures
            start == self.index_start(),
    {
        self.indices_start
    }

    /// Returns the length of the buffer.
    pub(crate) fn content_len(&self) -> (len: usize)
        ensures
            len == self.content_bytes().len(),
    {
        self.content.len()
    }

    /// Clear the witness.
    pub fn clear(&mut self)
        ensures
            final(self).wf(),
            final(self)@ == Seq::<Seq<u8>>::empty(),
            final(self).content_bytes() == Seq::<u8>::empty(),
            final(self).element_count() == 0,
            final(self).index_start() == 0,
    {
        self.content.clear();
        self.witness_elements = 0;
        self.indices_start = 0;
        assert(self@ =~= Seq::<Seq<u8>>::empty());
        assert(self.content_bytes() =~= layout::content_of(self@));
    }

    /// Returns whether an element of length `len` can be pushed.
    pub fn can_push(&self, len: usize) -> (can: bool)
        ensures
            can == self.push_safe(len as nat),
    {
        let limit: usize = isize::MAX as usize;
        let content_len: usize = self.content.len();
        let size: usize = compact_size::encoded_size(len);
        if self.indices_start > u32::MAX as usize || self.indices_start > content_len
            || self.witness_elements > (content_len - self.indices_start) / 4 {
            return false;
        }
        content_len <= limit && len <= limit - content_len && size + 4 <= limit - content_len - len
    }

    /// Push a new element on the witness, requires an allocation.
    pub fn push<T: AsBytes>(&mut self, new_element: T)
        requires
            old(self).push_safe(new_element.bytes().len()),
        ensures
            final(self).content_bytes() == layout::pushed(
                old(self).content_bytes(),
                old(self).index_start(),
                old(self).element_count(),
                new_element.bytes(),
            ),
            final(self).content_bytes().len() == old(self).content_bytes().len() + layout::item(
                new_element.bytes(),
            ).len() + 4,
            final(self).element_count() == old(self).element_count() + 1,
            final(self).index_start() == old(self).index_start() + layout::item(new_element.bytes()).len(),
            old(self).wf() ==> final(self).wf() && final(self)@ == old(self)@.push(
                new_element.bytes(),
            ),
    {
        self.push_slice(new_element.as_byte_slice());
    }

    /// Push a new element slice onto the witness stack.
    fn push_slice(&mut self, new_element: &[u8])
        requires
            old(self).push_safe(new_element@.len()),
        ensures
            final(self).content_bytes() == layout::pushed(
                old(self).content_bytes(),
                old(self).index_start(),
                old(self).element_count(),
                new_element@,
            ),
            final(self).content_bytes().len() == old(self).content_bytes().len() + layout::item(
                new_element@,
            ).len() + 4,
            final(self).element_count() == old(self).element_count() + 1,
            final(self).index_start() == old(self).index_start() + layout::item(new_element@).len(),
            old(self).wf() ==> final(self).wf() && final(self)@ == old(self)@.push(new_element@),
    {
        let ghost before = self.content@;
        let ghost count = self.witness_elements as nat;
        proof {
            layout::lemma_item_len(new_element@);
            compact_size::lemma_encoding_len(new_element@.len());
            layout::lemma_push_steps(before, self.indices_start as int, count, new_element@);
            cursor::lemma_native_round_trip(self.indices_start as u32);
        }
        let previous_content_end: usize = self.indices_start;
        let encoded: Vec<u8> = compact_size::encode(new_element.len());
        let encoded_size: usize = encoded.len();
        let new_item_total_len: usize = encoded_size + new_element.len();
        grow(&mut self.content, previous_content_end, new_item_total_len);
        let indices_start: usize = previous_content_end + new_item_total_len;
        cursor::encode_cursor(
            self.content.as_mut_slice(),
            indices_start,
            self.witness_elements,
            previous_content_end,
        );
        let end_compact_size: usize = previous_content_end + encoded_size;
        bytes::overwrite(self.content.as_mut_slice(), previous_content_end, encoded.as_slice());
        bytes::overwrite(self.content.as_mut_slice(), end_compact_size, new_element);
        self.witness_elements = self.witness_elements + 1;
        self.indices_start = indices_start;
        proof {
            if old(self).wf() {
                old(self).lemma_wf();
                layout::lemma_pushed(old(self)@, new_element@);
                layout::lemma_fits_push(old(self)@, new_element@);
                layout::lemma_layout_reads_back(old(self)@.push(new_element@));
            }
        }
    }
}

/// Two witnesses are equal if their buffers are, with as many elements and their index areas at the
/// same place.
impl PartialEq for Witness {
    fn eq(&self, other: &Self) -> (equal: bool)
        ensures
            equal <==> self.content_bytes() == other.content_bytes() && self.element_count()
                == other.element_count() && self.index_start() == other.index_start(),
            self.wf() && other.wf() ==> (equal <==> self@ == other@),
    {
        proof {
            if self.wf() && other.wf() {
                layout::lemma_layout_is_canonical(
                    self.content_bytes(),
                    self.index_start(),
                    self.element_count(),
                    other.content_bytes(),
                    other.index_start(),
                    other.element_count(),
                );
            }
        }
        let same_content: bool = self.content == other.content;
        assert(same_content == (self.content@ =~= other.content@));
        same_content && self.witness_elements == other.witness_elements && self.indices_start
            == other.indices_start
    }
}

impl vstd::std_specs::cmp::PartialEqSpecImpl for Witness {
    open spec fn obeys_eq_spec() -> bool {
        true
    }

    open spec fn eq_spec(&self, other: &Self) -> bool {
        &&& self.content_bytes() == other.content_bytes()
        &&& self.element_count() == other.element_count()
        &&& self.index_start() == other.index_start()
    }
}

/// Witnesses are ordered by their buffers, then by their counters, then by where their index areas
/// begin.
impl PartialOrd for Witness {
    fn partial_cmp(&self, other: &Self) -> (ordering: Option<core::cmp::Ordering>)
        ensures
            ordering is Some,
            ordering == Some(core::cmp::Ordering::Less) <==> order::precedes(
                self.content_bytes(),
                other.content_bytes(),
            ) || self.content_bytes() == other.content_bytes() && (self.element_count()
                < other.element_count() || self.element_count() == other.element_count()
                && self.index_start() < other.index_start()),
            ordering == Some(core::cmp::Ordering::Greater) <==> order::precedes(
                other.content_bytes(),
                self.content_bytes(),
            ) || self.content_bytes() == other.content_bytes() && (self.element_count()
                > other.element_count() || self.element_count() == other.element_count()
                && self.index_start() > other.index_start()),
            ordering == Some(core::cmp::Ordering::Equal) <==> self.content_bytes()
                == other.content_bytes() && self.element_count() == other.element_count()
                && self.index_start() == other.index_start(),
    {
        proof {
            order::lemma_order_is_total(self.content_bytes(), other.content_bytes());
        }
        if order::is_before(self.content.as_slice(), other.content.as_slice()) {
            Some(core::cmp::Ordering::Less)
        } else if order::is_before(other.content.as_slice(), self.content.as_slice()) {
            Some(core::cmp::Ordering::Greater)
        } else if self.witness_elements < other.witness_elements {
            Some(core::cmp::Ordering::Less)
        } else if self.witness_elements > other.witness_elements {
            Some(core::cmp::Ordering::Greater)
        } else if self.indices_start < other.indices_start {
            Some(core::cmp::Ordering::Less)
        } else if self.indices_start > other.indices_start {
            Some(core::cmp::Ordering::Greater)
        } else {
            Some(core::cmp::Ordering::Equal)
        }
    }
}

impl vstd::std_specs::cmp::PartialOrdSpecImpl for Witness {
    open spec fn obeys_partial_cmp_spec() -> bool {
        true
    }

    open spec fn partial_cmp_spec(&self, other: &Self) -> Option<core::cmp::Ordering> {
        if order::precedes(self.content_bytes(), other.content_bytes()) {
            Some(core::cmp::Ordering::Less)
        } else if order::precedes(other.content_bytes(), self.content_bytes()) {
            Some(core::cmp::Ordering::Greater)
        } else if self.element_count() < other.element_count() {
            Some(core::cmp::Ordering::Less)
        } else if self.element_count() > other.element_count() {
            Some(core::cmp::Ordering::Greater)
        } else if self.index_start() < other.index_start() {
            Some(core::cmp::Ordering::Less)
        } else if self.index_start() > other.index_start() {
            Some(core::cmp::Ordering::Greater)
        } else {
            Some(core::cmp::Ordering::Equal)
        }
    }
}

impl Clone for Witness {
    fn clone(&self) -> (copy: Self)
        ensures
            copy.content_bytes() == self.content_bytes(),
            copy.element_count() == self.element_count(),
            copy.index_start() == self.index_start(),
    {
        let content: Vec<u8> = self.content.clone();
        assert(content@ =~= self.content@);
        Witness {
            content,
            witness_elements: self.witness_elements,
            indices_start: self.indices_start,
        }
    }
}

impl Default for Witness {
    fn default() -> (witness: Self)
        ensures
            witness.wf(),
            witness@ == Seq::<Seq<u8>>::empty(),
            witness.content_bytes() == Seq::<u8>::empty(),
            witness.element_count() == 0,
            witness.index_start() == 0,
    {
        Self::new()
    }
}

/// Indexing hands out an element that is known to be there.
impl core::ops::Index<usize> for Witness {
    type Output = [u8];

    fn index(&self, index: usize) -> (read: &[u8])
        ensures
            read@ == layout::element(self.content_bytes(), self.index_start(), index as int),
            self.wf() ==> read@ == self@[index as int],
    {
        proof {
            assert(self.content@.len() == self.content.len());
            if self.wf() {
                self.lemma_wf_readable(index as int);
            }
        }
        self.nth(index).expect("out of bounds")
    }
}

impl vstd::std_specs::core::IndexSpecImpl<usize> for Witness {
    open spec fn index_req(&self, index: &usize) -> bool {
        ||| self.wf() && *index < self@.len()
        ||| {
            &&& cursor::has_slot(self.content_bytes(), self.index_start(), *index as int)
            &&& layout::readable(self.content_bytes(), self.index_start(), *index as int)
        }
    }
}

/// Two well-formed witnesses are equal exactly if they hold the same elements.
pub proof fn lemma_equal_iff_same_elements(a: &Witness, b: &Witness)
    requires
        a.wf(),
        b.wf(),
    ensures
        vstd::std_specs::cmp::PartialEqSpec::eq_spec(a, b) <==> a@ == b@,
{
    layout::lemma_layout_is_canonical(
        a.content_bytes(),
        a.index_start(),
        a.element_count(),
        b.content_bytes(),
        b.index_start(),
        b.element_count(),
    );
}

/// An element can be pushed onto a well-formed witness exactly if a witness can hold the elements
/// with that one behind them.
pub proof fn lemma_push_safe_iff_fits(witness: &Witness, new: Seq<u8>)
    requires
        witness.wf(),
    ensures
        witness.push_safe(new.len()) <==> layout::fits(witness@.push(new)),
{
    let longer = witness@.push(new);
    let count = witness@.len() as int;
    witness.lemma_wf();
    layout::lemma_item_len(new);
    assert(longer.drop_last() =~= witness@);
    assert(longer.take(count) =~= witness@);
    if witness.push_safe(new.len()) {
        layout::lemma_fits_push(witness@, new);
    }
    if layout::fits(longer) {
        assert(layout::offset(longer, count) <= u32::MAX);
    }
}

/// After a push the new element is found behind the others, which are found where they were.
pub proof fn lemma_lookup_after_push(before: &Witness, after: &Witness, new: Seq<u8>)
    requires
        before.wf(),
        after.wf(),
        after@ == before@.push(new),
    ensures
        layout::element(after.content_bytes(), after.index_start(), before@.len() as int) == new,
        forall|i: int|
            0 <= i < before@.len() ==> #[trigger] layout::element(
                after.content_bytes(),
                after.index_start(),
                i,
            ) == layout::element(before.content_bytes(), before.index_start(), i),
        forall|i: int|
            0 <= i ==> (#[trigger] cursor::has_slot(after.content_bytes(), after.index_start(), i)
                <==> i <= before@.len()),
{
    after.lemma_wf_readable(before@.len() as int);
    assert forall|i: int| 0 <= i < before@.len() implies #[trigger] layout::element(
        after.content_bytes(),
        after.index_start(),
        i,
    ) == layout::element(before.content_bytes(), before.index_start(), i) by {
        after.lemma_wf_readable(i);
        before.lemma_wf_readable(i);
    }
    assert forall|i: int| 0 <= i implies (#[trigger] cursor::has_slot(
        after.content_bytes(),
        after.index_start(),
        i,
    ) <==> i <= before@.len()) by {
        after.lemma_wf_readable(i);
    }
}

/// Returns the total length of the elements of `slice`, each with its length in front of it.
fn items_size<T: AsBytes>(slice: &[T]) -> (size: usize)
    requires
        layout::data(bytes::byte_strings(slice@)).len() <= usize::MAX,
    ensures
        size == layout::data(bytes::byte_strings(slice@)).len(),
{
    let ghost elements = bytes::byte_strings(slice@);
    let mut size: usize = 0;
    let mut i: usize = 0;
    assert(elements.take(0) =~= Seq::empty());
    while i < slice.len()
        invariant
            elements == bytes::byte_strings(slice@),
            layout::data(elements).len() <= usize::MAX,
            i <= slice@.len(),
            size == layout::offset(elements, i as int),
        decreases slice@.len() - i,
    {
        proof {
            layout::lemma_item_position(elements, i as int);
            layout::lemma_item_len(elements[i as int]);
        }
        let len: usize = slice[i].as_byte_slice().len();
        size = size + (len + compact_size::encoded_size(len));
        i = i + 1;
    }
    assert(elements.take(elements.len() as int) =~= elements);
    size
}

/// Makes room for an item of length `len` at `pos`, and for one more cursor at the end.
fn grow(content: &mut Vec<u8>, pos: usize, len: usize)
    requires
        pos <= old(content)@.len(),
        old(content)@.len() + len + 4 <= usize::MAX,
    ensures
        final(content)@ == old(content)@.take(pos as int) + bytes::zeros(len as nat) + (
        old(content)@.skip(pos as int) + bytes::zeros(4)),
{
    let ghost before = content@;
    let current_len: usize = content.len();
    content.resize(current_len + len + 4, 0);
    assert(content@ =~= before + bytes::zeros((len + 4) as nat)) by {
        assert forall|i: int| 0 <= i < before.len() implies content@[i] == before[i] by {
            assert(content@[i] == content@.subrange(0, before.len() as int)[i]);
        }
    }
    bytes::rotate_right_from(content, pos, len);
    assert(content@ =~= before.take(pos as int) + bytes::zeros(len as nat) + (
    before.skip(pos as int) + bytes::zeros(4)));
}

/// A witness stands for as many elements as its counter says, and each is the one that its cursor
/// points to. The whole index area may point to more or fewer.
pub proof fn lemma_view_parts(witness: &Witness, index: int)
    requires
        0 <= index,
    ensures
        witness@.len() == witness.element_count(),
        index < witness@.len() ==> witness@[index] == layout::element_at(
            witness.content_bytes(),
            cursor::cursor_at(witness.content_bytes(), witness.index_start(), index) as int,
        ),
        index < witness.indexed_elements().len() <==> witness.index_start() + 4 * index + 4
            <= witness.content_bytes().len(),
        index < witness.indexed_elements().len() ==> witness.indexed_elements()[index]
            == layout::element_at(
            witness.content_bytes(),
            cursor::cursor_at(witness.content_bytes(), witness.index_start(), index) as int,
        ),
        witness.wf() ==> witness.indexed_elements() == witness@,
{
    witness.lemma_parts();
    if witness.wf() {
        witness.lemma_wf();
    }
}

/// The size is that of the counter, which takes one byte for up to 252 elements, and of the elements
/// with their lengths. In a well-formed witness these end where the index area begins.
pub proof fn lemma_total_size(witness: &Witness)
    ensures
        witness.total_size() == layout::data(witness.indexed_elements()).len() + (if witness.element_count()
            < 0xFD {
            1int
        } else if witness.element_count() < 0x1_0000 {
            3
        } else if witness.element_count() < 0x1_0000_0000 {
            5
        } else {
            9
        }),
        witness.wf() ==> layout::data(witness.indexed_elements()).len() == witness.index_start(),
        witness.wf() ==> witness.total_size() == layout::serialization(witness@).len(),
{
    compact_size::lemma_encoding_sizes(witness.element_count());
    compact_size::lemma_encoding_len(witness.element_count());
    if witness.wf() {
        witness.lemma_wf();
    }
}

/// A push makes a witness larger by the new element and its length, and by two bytes more if the
/// counter goes from 252 to 253 elements.
pub proof fn lemma_size_after_push(before: &Witness, after: &Witness, new: Seq<u8>)
    requires
        before.wf(),
        after.wf(),
        after@ == before@.push(new),
        before@.len() < 0xFFFF,
    ensures
        after.total_size() - before.total_size() == new.len() + (if new.len() < 0xFD {
            1int
        } else if new.len() < 0x1_0000 {
            3
        } else if new.len() < 0x1_0000_0000 {
            5
        } else {
            9
        }) + (if before@.len() == 252 {
            2int
        } else {
            0
        }),
{
    before.lemma_wf();
    after.lemma_wf();
    lemma_total_size(before);
    lemma_total_size(after);
    assert(after@.drop_last() =~= before@);
    layout::lemma_item_len(new);
    compact_size::lemma_encoding_sizes(new.len());
}

/// When the operations can be used. A look-up needs the element to be readable if its cursor is
/// there. Going through all elements needs all of them to be readable. Counting the bytes needs the
/// number to fit as well. A well-formed witness can always be read and counted.
pub proof fn lemma_when_readable(witness: &Witness, index: int)
    requires
        0 <= index,
    ensures
        witness.lookup_safe(index) <==> (witness.index_start() + 4 * index + 4
            <= witness.content_bytes().len() ==> layout::readable_at(
            witness.content_bytes(),
            cursor::cursor_at(witness.content_bytes(), witness.index_start(), index) as int,
        )),
        witness.walk_safe() <==> forall|i: int|
            0 <= i && witness.index_start() + 4 * i + 4 <= witness.content_bytes().len()
                ==> layout::readable_at(
                witness.content_bytes(),
                #[trigger] cursor::cursor_at(
                    witness.content_bytes(),
                    witness.index_start(),
                    i,
                ) as int,
            ),
        witness.size_safe() <==> witness.walk_safe() && layout::data(
            witness.indexed_elements(),
        ).len() + (if witness.element_count() < 0xFD {
            1int
        } else if witness.element_count() < 0x1_0000 {
            3
        } else if witness.element_count() < 0x1_0000_0000 {
            5
        } else {
            9
        }) <= usize::MAX,
        vstd::std_specs::core::IndexSpec::index_req(witness, &(index as usize)) && index
            <= usize::MAX ==> witness.lookup_safe(index) && witness.index_start() + 4 * index + 4
            <= witness.content_bytes().len(),
        witness.lookup_safe(index) && witness.index_start() + 4 * index + 4
            <= witness.content_bytes().len() ==> vstd::std_specs::core::IndexSpec::index_req(
            witness,
            &(index as usize),
        ),
        witness.wf() ==> witness.lookup_safe(index) && witness.walk_safe() && witness.size_safe(),
{
    witness.lemma_parts();
    compact_size::lemma_encoding_sizes(witness.element_count());
    if witness.wf() {
        witness.lemma_wf();
        witness.lemma_wf_readable(index);
    }
}

/// An element can be pushed if it starts within 32 bits, the index area has the cursors of the
/// elements before it, and the buffer does not become larger than an allocation can be.
pub proof fn lemma_when_pushable(witness: &Witness, len: nat)
    ensures
        witness.push_safe(len) <==> {
            &&& witness.index_start() <= u32::MAX
            &&& witness.index_start() + 4 * witness.element_count() <= witness.content_bytes().len()
            &&& witness.content_bytes().len() + len + 4 + (if len < 0xFD {
                1int
            } else if len < 0x1_0000 {
                3
            } else if len < 0x1_0000_0000 {
                5
            } else {
                9
            }) <= isize::MAX
        },
{
    compact_size::lemma_encoding_sizes(len);
}

/// A well-formed witness is made up of its elements and nothing else: its parts are those that
/// they are laid out in.
pub proof fn lemma_well_formed(witness: &Witness)
    requires
        witness.wf(),
    ensures
        layout::fits(witness@),
        witness.content_bytes() == layout::content_of(witness@),
        witness.index_start() == layout::data(witness@).len(),
        witness.element_count() == witness@.len(),
        witness.content_bytes().len() == witness.index_start() + 4 * witness@.len(),
{
    witness.lemma_wf();
}

} // verus!
