//! Byte strings and in-place changes of a byte buffer.

use vstd::prelude::*;

verus! {

/// A value that can be read as a byte string.
pub trait AsBytes {
    /// The byte string.
    spec fn bytes(&self) -> Seq<u8>;

    /// Returns the byte string.
    fn as_byte_slice(&self) -> (slice: &[u8])
        ensures
            slice@ == self.bytes(),
    ;
}

impl AsBytes for [u8] {
    open spec fn bytes(&self) -> Seq<u8> {
        self@
    }

    fn as_byte_slice(&self) -> (slice: &[u8]) {
        self
    }
}

impl<const N: usize> AsBytes for [u8; N] {
    open spec fn bytes(&self) -> Seq<u8> {
        self@
    }

    fn as_byte_slice(&self) -> (slice: &[u8]) {
        self.as_slice()
    }
}

impl AsBytes for Vec<u8> {
    open spec fn bytes(&self) -> Seq<u8> {
        self@
    }

    fn as_byte_slice(&self) -> (slice: &[u8]) {
        self.as_slice()
    }
}

impl AsBytes for str {
    open spec fn bytes(&self) -> Seq<u8> {
        vstd::utf8::encode_utf8(self@)
    }

    fn as_byte_slice(&self) -> (slice: &[u8]) {
        self.as_bytes()
    }
}

impl AsBytes for String {
    open spec fn bytes(&self) -> Seq<u8> {
        vstd::utf8::encode_utf8(self@)
    }

    fn as_byte_slice(&self) -> (slice: &[u8]) {
        self.as_str().as_bytes()
    }
}

impl<T: AsBytes + ?Sized> AsBytes for &T {
    open spec fn bytes(&self) -> Seq<u8> {
        (**self).bytes()
    }

    fn as_byte_slice(&self) -> (slice: &[u8]) {
        (**self).as_byte_slice()
    }
}

impl<T: AsBytes + ?Sized> AsBytes for &mut T {
    open spec fn bytes(&self) -> Seq<u8> {
        (**self).bytes()
    }

    fn as_byte_slice(&self) -> (slice: &[u8]) {
        (**self).as_byte_slice()
    }
}

impl AsBytes for std::borrow::Cow<'_, [u8]> {
    open spec fn bytes(&self) -> Seq<u8> {
        match self {
            std::borrow::Cow::Borrowed(borrowed) => borrowed@,
            std::borrow::Cow::Owned(owned) => owned@,
        }
    }

    fn as_byte_slice(&self) -> (slice: &[u8]) {
        match self {
            std::borrow::Cow::Borrowed(borrowed) => borrowed,
            std::borrow::Cow::Owned(owned) => owned.as_slice(),
        }
    }
}

impl AsBytes for Box<[u8]> {
    open spec fn bytes(&self) -> Seq<u8> {
        (**self)@
    }

    fn as_byte_slice(&self) -> (slice: &[u8]) {
        &**self
    }
}

impl AsBytes for std::rc::Rc<[u8]> {
    open spec fn bytes(&self) -> Seq<u8> {
        (**self)@
    }

    fn as_byte_slice(&self) -> (slice: &[u8]) {
        &**self
    }
}

impl AsBytes for std::sync::Arc<[u8]> {
    open spec fn bytes(&self) -> Seq<u8> {
        (**self)@
    }

    fn as_byte_slice(&self) -> (slice: &[u8]) {
        &**self
    }
}

/// The byte strings that `items` hold.
pub open spec fn byte_strings<T: AsBytes>(items: Seq<T>) -> Seq<Seq<u8>> {
    Seq::new(items.len(), |i: int| items[i].bytes())
}

/// `len` zero bytes.
pub open spec fn zeros(len: nat) -> Seq<u8> {
    Seq::new(len, |i: int| 0u8)
}

/// `bytes` with `new` written over it from `pos` on.
pub open spec fn overwritten(bytes: Seq<u8>, pos: int, new: Seq<u8>) -> Seq<u8> {
    bytes.take(pos) + new + bytes.skip(pos + new.len())
}

/// Writing behind a prefix leaves the prefix as it is.
pub(crate) proof fn lemma_overwritten_behind(prefix: Seq<u8>, bytes: Seq<u8>, pos: int, new: Seq<u8>)
    requires
        0 <= pos,
        pos + new.len() <= bytes.len(),
    ensures
        overwritten(prefix + bytes, prefix.len() + pos, new) == prefix + overwritten(
            bytes,
            pos,
            new,
        ),
{
    assert(overwritten(prefix + bytes, prefix.len() + pos, new) =~= prefix + overwritten(
        bytes,
        pos,
        new,
    ));
}

/// Writing over the whole of a part puts the new bytes in its place.
pub(crate) proof fn lemma_overwritten_part(
    prefix: Seq<u8>,
    part: Seq<u8>,
    suffix: Seq<u8>,
    new: Seq<u8>,
)
    requires
        part.len() == new.len(),
    ensures
        overwritten(prefix + part + suffix, prefix.len() as int, new) == prefix + new + suffix,
{
    assert(overwritten(prefix + part + suffix, prefix.len() as int, new) =~= prefix + new + suffix);
}

/// Writes `new` over `bytes` from `pos` on.
pub(crate) fn overwrite(bytes: &mut [u8], pos: usize, new: &[u8])
    requires
        pos + new@.len() <= old(bytes)@.len(),
    ensures
        final(bytes)@ == overwritten(old(bytes)@, pos as int, new@),
{
    let mut i: usize = 0;
    assert(bytes@ =~= overwritten(old(bytes)@, pos as int, new@.take(0)));
    while i < new.len()
        invariant
            i <= new@.len(),
            pos + new@.len() <= old(bytes)@.len(),
            bytes@ == overwritten(old(bytes)@, pos as int, new@.take(i as int)),
        decreases new@.len() - i,
    {
        assert(bytes@.len() == bytes.len());
        bytes[pos + i] = new[i];
        i = i + 1;
        assert(bytes@ =~= overwritten(old(bytes)@, pos as int, new@.take(i as int)));
    }
    assert(new@.take(new@.len() as int) =~= new@);
}

/// Rotates the part of `bytes` from `start` on, so that its last `by` bytes come to stand first.
pub(crate) fn rotate_right_from(bytes: &mut Vec<u8>, start: usize, by: usize)
    requires
        start + by <= old(bytes)@.len(),
    ensures
        final(bytes)@ == old(bytes)@.take(start as int) + old(bytes)@.skip(
            old(bytes)@.len() - by,
        ) + old(bytes)@.subrange(start as int, old(bytes)@.len() - by),
{
    let split: usize = bytes.len() - by;
    let mut front: Vec<u8> = bytes.split_off(split);
    let mut back: Vec<u8> = bytes.split_off(start);
    bytes.append(&mut front);
    bytes.append(&mut back);
    assert(bytes@ =~= old(bytes)@.take(start as int) + old(bytes)@.skip(old(bytes)@.len() - by)
        + old(bytes)@.subrange(start as int, old(bytes)@.len() - by));
}

/// The byte string of a slice is all of it.
pub proof fn lemma_slice_bytes(value: &[u8])
    ensures
        <[u8] as AsBytes>::bytes(value) == value@,
        <[u8] as AsBytes>::bytes(value).len() == value@.len(),
{
}

/// The byte string of an array has every byte of the array in its place.
pub proof fn lemma_array_bytes<const N: usize>(value: &[u8; N])
    ensures
        <[u8; N] as AsBytes>::bytes(value) == value@,
        <[u8; N] as AsBytes>::bytes(value).len() == N,
        forall|i: int| 0 <= i < N ==> <[u8; N] as AsBytes>::bytes(value)[i] == value@[i],
{
}

/// The byte string of a vector is all of it.
pub proof fn lemma_vec_bytes(value: &Vec<u8>)
    ensures
        <Vec<u8> as AsBytes>::bytes(value) == value@,
        <Vec<u8> as AsBytes>::bytes(value).len() == value@.len(),
{
}

/// The byte string of a text is its UTF-8 form, whoever owns the text.
pub proof fn lemma_text_bytes(value: &str, owned: &String)
    ensures
        <str as AsBytes>::bytes(value) == vstd::utf8::encode_utf8(value@),
        <String as AsBytes>::bytes(owned) == vstd::utf8::encode_utf8(owned@),
        value@ == owned@ ==> <str as AsBytes>::bytes(value) == <String as AsBytes>::bytes(owned),
{
}

/// A reference has the byte string of what it points to.
pub proof fn lemma_reference_bytes<T: AsBytes + ?Sized>(value: &T)
    ensures
        <&T as AsBytes>::bytes(&value) == <T as AsBytes>::bytes(value),
{
}

/// A mutable reference has the byte string of what it points to.
pub proof fn lemma_mutable_reference_bytes<T: AsBytes + ?Sized>(value: &&mut T)
    ensures
        <&mut T as AsBytes>::bytes(value) == <T as AsBytes>::bytes(&*old(*value)),
{
}

/// A borrowed and an owned byte string are each taken whole.
pub proof fn lemma_cow_bytes(borrowed: &[u8], owned: Vec<u8>)
    ensures
        <std::borrow::Cow<'_, [u8]> as AsBytes>::bytes(&std::borrow::Cow::Borrowed(borrowed))
            == borrowed@,
        <std::borrow::Cow<'_, [u8]> as AsBytes>::bytes(&std::borrow::Cow::Owned(owned)) == owned@,
{
}

/// A pointer that owns or shares a slice has the byte string of the whole slice.
pub proof fn lemma_pointer_bytes(
    boxed: &Box<[u8]>,
    counted: &std::rc::Rc<[u8]>,
    shared: &std::sync::Arc<[u8]>,
)
    ensures
        <Box<[u8]> as AsBytes>::bytes(boxed) == (**boxed)@,
        <std::rc::Rc<[u8]> as AsBytes>::bytes(counted) == (**counted)@,
        <std::sync::Arc<[u8]> as AsBytes>::bytes(shared) == (**shared)@,
{
}

/// There is one byte string for each item, in the order of the items.
pub proof fn lemma_byte_strings<T: AsBytes>(items: Seq<T>)
    ensures
        byte_strings(items).len() == items.len(),
        forall|i: int| 0 <= i < items.len() ==> #[trigger] byte_strings(items)[i] == items[i].bytes(),
{
}

/// Writing over a part changes the bytes of that part to the new ones, and no others.
pub proof fn lemma_overwritten(bytes: Seq<u8>, pos: int, new: Seq<u8>)
    requires
        0 <= pos,
        pos + new.len() <= bytes.len(),
    ensures
        overwritten(bytes, pos, new).len() == bytes.len(),
        forall|i: int|
            0 <= i < bytes.len() ==> #[trigger] overwritten(bytes, pos, new)[i] == if pos <= i < pos
                + new.len() {
                new[i - pos]
            } else {
                bytes[i]
            },
        forall|n: nat| #[trigger] zeros(n).len() == n,
        forall|n: nat, i: int| 0 <= i < n ==> #[trigger] zeros(n)[i] == 0,
{
}

} // verus!
