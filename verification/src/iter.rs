//! Going through the elements of a witness one by one.

use crate::cursor;
use crate::layout;
use vstd::prelude::*;

verus! {

/// Hands out the elements of a witness one by one.
pub struct Iter<'a> {
    inner: &'a [u8],
    indices_start: usize,
    current_index: usize,
}

/// The elements that are still to come.
impl<'a> View for Iter<'a> {
    type V = Seq<Seq<u8>>;

    open spec fn view(&self) -> Seq<Seq<u8>> {
        Seq::new(
            (layout::slots(self.content_bytes(), self.index_start()) - self.position()) as nat,
            |i: int|
                layout::element(self.content_bytes(), self.index_start(), self.position() + i),
        )
    }
}

impl<'a> Iter<'a> {
    /// The buffer of the witness.
    pub closed spec fn content_bytes(&self) -> Seq<u8> {
        self.inner@
    }

    /// The position in the buffer at which the index area begins.
    pub closed spec fn index_start(&self) -> int {
        self.indices_start as int
    }

    /// The number of the element that comes next.
    pub closed spec fn position(&self) -> int {
        self.current_index as int
    }

    /// Whether the index area lies in the buffer, and no more elements were handed out than it has
    /// cursors.
    pub open spec fn in_bounds(&self) -> bool {
        &&& self.index_start() <= self.content_bytes().len()
        &&& self.position() <= layout::slots(self.content_bytes(), self.index_start())
    }

    /// Whether the buffer is that of the elements which its index area points to.
    pub open spec fn wf(&self) -> bool {
        &&& self.in_bounds()
        &&& layout::well_formed(
            self.content_bytes(),
            self.index_start(),
            layout::slots(self.content_bytes(), self.index_start()),
        )
    }

    /// Whether looking for the next element stays within the buffer.
    pub open spec fn next_safe(&self) -> bool {
        self.wf() || layout::readable(self.content_bytes(), self.index_start(), self.position())
    }

    /// Begins with the first element of the given buffer.
    pub(crate) fn start(inner: &'a [u8], indices_start: usize) -> (iter: Iter<'a>)
        ensures
            iter.content_bytes() == inner@,
            iter.index_start() == indices_start,
            iter.position() == 0,
    {
        Iter { inner, indices_start, current_index: 0 }
    }

    /// The parts of any iterator, well-formed or not, are within the limits of the machine.
    pub proof fn lemma_parts(&self)
        ensures
            self.content_bytes().len() <= usize::MAX,
            0 <= self.index_start() <= usize::MAX,
            0 <= self.position() <= usize::MAX,
    {
        assert(self.inner@.len() == self.inner.len());
    }

    /// What well-formedness gives: the next element can be read.
    proof fn lemma_wf(&self)
        requires
            self.wf(),
        ensures
            layout::readable(self.content_bytes(), self.index_start(), self.position()),
    {
        let content = self.content_bytes();
        let start = self.index_start();
        let count = layout::slots(content, start);
        let elements = layout::elements_of(content, start, count);
        layout::lemma_slots(content, start, self.position());
        layout::lemma_layout_reads_back(elements);
        if self.position() < count {
            layout::lemma_element_reads_back(elements, self.position());
        }
    }

    /// Returns whether the next element can be read, if there is one.
    ///
    /// It always can in a well-formed witness.
    pub fn is_next_safe(&self) -> (safe: bool)
        ensures
            safe == self.next_safe(),
    {
        proof {
            if self.wf() {
                self.lemma_wf();
            }
        }
        match cursor::decode_cursor(self.inner, self.indices_start, self.current_index) {
            None => true,
            Some(pos) => layout::can_read_at(self.inner, pos),
        }
    }

    /// Returns whether the number of elements that are still to come is known.
    ///
    /// It always is in a well-formed witness.
    pub fn is_in_bounds(&self) -> (known: bool)
        ensures
            known == self.in_bounds(),
    {
        self.indices_start <= self.inner.len() && self.current_index <= (self.inner.len()
            - self.indices_start) / 4
    }

    /// Returns the next element, or `None` when there are no more cursors.
    pub fn next(&mut self) -> (next: Option<&'a [u8]>)
        requires
            old(self).next_safe(),
        ensures
            final(self).content_bytes() == old(self).content_bytes(),
            final(self).index_start() == old(self).index_start(),
            next is Some <==> cursor::has_slot(
                old(self).content_bytes(),
                old(self).index_start(),
                old(self).position(),
            ),
            next matches Some(read) ==> {
                &&& read@ == layout::element(
                    old(self).content_bytes(),
                    old(self).index_start(),
                    old(self).position(),
                )
                &&& final(self).position() == old(self).position() + 1
            },
            next is None ==> final(self).position() == old(self).position(),
            old(self).in_bounds() ==> {
                &&& final(self).in_bounds()
                &&& next is Some <==> old(self)@.len() > 0
                &&& next matches Some(read) ==> read@ == old(self)@[0] && final(self)@
                    == old(self)@.drop_first()
                &&& next is None ==> final(self)@ == old(self)@
            },
            old(self).wf() ==> final(self).wf(),
    {
        proof {
            layout::lemma_slots(
                self.content_bytes(),
                self.index_start(),
                self.position(),
            );
            if self.wf() {
                self.lemma_wf();
            }
        }
        match cursor::decode_cursor(self.inner, self.indices_start, self.current_index) {
            None => None,
            Some(pos) => {
                let read: &'a [u8] = layout::read_element(self.inner, pos);
                assert(self.inner@.len() == self.inner.len());
                self.current_index = self.current_index + 1;
                proof {
                    if old(self).in_bounds() {
                        assert(self@ =~= old(self)@.drop_first());
                    }
                }
                Some(read)
            },
        }
    }

    /// Returns the bounds on the number of elements that are still to come, which are both that
    /// number.
    pub fn size_hint(&self) -> (bounds: (usize, Option<usize>))
        requires
            self.in_bounds(),
        ensures
            bounds.0 == layout::slots(self.content_bytes(), self.index_start()) - self.position(),
            bounds.0 == self@.len(),
            bounds.1 == Some(bounds.0),
    {
        let total_count: usize = (self.inner.len() - self.indices_start) / 4;
        let remaining: usize = total_count - self.current_index;
        (remaining, Some(remaining))
    }

    /// Returns the number of elements that are still to come.
    pub fn len(&self) -> (len: usize)
        requires
            self.in_bounds(),
        ensures
            len == layout::slots(self.content_bytes(), self.index_start()) - self.position(),
            len == self@.len(),
    {
        self.size_hint().0
    }
}

/// What is still to come are the elements that the cursors from the position on point to. The
/// iterator is in bounds if the index area begins in the buffer and it has not handed out more than
/// there are cursors, and the next element can be asked for if it is readable or not there.
pub proof fn lemma_iter_parts(iter: &Iter<'_>, index: int)
    requires
        0 <= index,
    ensures
        iter.in_bounds() <==> iter.index_start() + 4 * iter.position()
            <= iter.content_bytes().len(),
        iter.in_bounds() ==> {
            &&& index < iter@.len() <==> iter.index_start() + 4 * (iter.position() + index) + 4
                <= iter.content_bytes().len()
            &&& index < iter@.len() ==> iter@[index] == layout::element_at(
                iter.content_bytes(),
                cursor::cursor_at(
                    iter.content_bytes(),
                    iter.index_start(),
                    iter.position() + index,
                ) as int,
            )
        },
        iter.next_safe() <==> (iter.index_start() + 4 * iter.position() + 4
            <= iter.content_bytes().len() ==> layout::readable_at(
            iter.content_bytes(),
            cursor::cursor_at(iter.content_bytes(), iter.index_start(), iter.position()) as int,
        )),
        iter.wf() <==> iter.in_bounds() && layout::well_formed(
            iter.content_bytes(),
            iter.index_start(),
            ((iter.content_bytes().len() - iter.index_start()) / 4) as nat,
        ),
{
    iter.lemma_parts();
    if iter.wf() {
        iter.lemma_wf();
    }
}

} // verus!
