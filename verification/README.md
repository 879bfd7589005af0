# witness

The data that unlocks bitcoin since the segwit upgrade: a stack of byte strings, kept in a single
buffer and verified with Verus.

The buffer holds the elements one after the other, each behind its length as a compact size integer.
Behind them stands an index area with the position of each element. `Witness::from_slice` and
`Witness::to_bytes` convert from and to a list of byte strings; `push`, `nth`, `last`,
`second_to_last`, `iter` and `size` work on the buffer in place.

A witness is well formed if its buffer is exactly the one that `layout::content_of` describes for
the elements it holds. New witnesses are well formed, and every operation keeps them so.
`Witness::from_parts__unstable` alone takes a buffer as it is, and the contracts of the other
operations also say what they do with a buffer that is not well formed.

- `src/` is the verified library.
- `tests/` runs it.
- `app/` adds serde, `arbitrary`, `From` and the iterator traits to it.
