use std::borrow::Cow;
use std::rc::Rc;
use std::sync::Arc;

use witness::{compact_size, Witness};

// Appends all the indices onto the end of a list of elements.
fn append_u32_vec(elements: &[u8], indices: &[u32]) -> Vec<u8> {
    let mut v = elements.to_vec();
    for &num in indices {
        v.extend_from_slice(&num.to_ne_bytes());
    }
    v
}

// A witness with a single element that is empty (zero length).
fn single_empty_element() -> Witness {
    // The first is 0 serialized as a compact size integer.
    // The last four bytes represent start at index 0.
    let content = [0_u8; 5];

    Witness::from_parts__unstable(content.to_vec(), 1, 1)
}

#[test]
fn witness_debug_can_display_empty_element() {
    let witness = single_empty_element();
    println!("{:?}", witness);
    assert_eq!(
        format!("{:?}", witness),
        "Witness: { indices: 1, indices_start: 1, witnesses: [[]] }"
    );
}

#[test]
fn witness_single_empty_element() {
    let mut got = Witness::new();
    got.push(&[]);
    let want = single_empty_element();
    assert_eq!(got, want)
}

#[test]
fn push() {
    // Sanity check default.
    let mut witness = Witness::default();
    assert_eq!(witness.last(), None);
    assert_eq!(witness.second_to_last(), None);

    assert_eq!(witness.nth(0), None);
    assert_eq!(witness.nth(1), None);
    assert_eq!(witness.nth(2), None);
    assert_eq!(witness.nth(3), None);

    // Push a single byte element onto the witness stack.
    let push = [0_u8];
    witness.push(&push);

    let elements = [1u8, 0];
    let expected = Witness::from_parts__unstable(
        append_u32_vec(&elements, &[0]), // Start at index 0.
        1,
        elements.len(),
    );
    assert_eq!(witness, expected);

    let element_0 = push.as_slice();
    assert_eq!(element_0, &witness[0]);

    assert_eq!(witness.second_to_last(), None);
    assert_eq!(witness.last(), Some(element_0));

    assert_eq!(witness.nth(0), Some(element_0));
    assert_eq!(witness.nth(1), None);
    assert_eq!(witness.nth(2), None);
    assert_eq!(witness.nth(3), None);

    // Now push 2 byte element onto the witness stack.
    let push = [2u8, 3u8];
    witness.push(&push);

    let elements = [1u8, 0, 2, 2, 3];
    let expected = Witness::from_parts__unstable(
        append_u32_vec(&elements, &[0, 2]),
        2,
        elements.len(),
    );
    assert_eq!(witness, expected);

    let element_1 = push.as_slice();
    assert_eq!(element_1, &witness[1]);

    assert_eq!(witness.nth(0), Some(element_0));
    assert_eq!(witness.nth(1), Some(element_1));
    assert_eq!(witness.nth(2), None);
    assert_eq!(witness.nth(3), None);

    assert_eq!(witness.second_to_last(), Some(element_0));
    assert_eq!(witness.last(), Some(element_1));

    // Now push another 2 byte element onto the witness stack.
    let push = [4u8, 5u8];
    witness.push(&push);

    let elements = [1u8, 0, 2, 2, 3, 2, 4, 5];
    let expected = Witness::from_parts__unstable(
        append_u32_vec(&elements, &[0, 2, 5]),
        3,
        elements.len(),
    );
    assert_eq!(witness, expected);

    let element_2 = push.as_slice();
    assert_eq!(element_2, &witness[2]);

    assert_eq!(witness.nth(0), Some(element_0));
    assert_eq!(witness.nth(1), Some(element_1));
    assert_eq!(witness.nth(2), Some(element_2));
    assert_eq!(witness.nth(3), None);

    assert_eq!(witness.second_to_last(), Some(element_1));
    assert_eq!(witness.last(), Some(element_2));
}

#[test]
fn exact_sized_iterator() {
    let arbitrary_element = [1_u8, 2, 3];
    let num_pushes = 5; // Somewhat arbitrary.

    let mut witness = Witness::default();

    for i in 0..num_pushes {
        assert_eq!(witness.iter().len(), i);
        witness.push(&arbitrary_element);
    }

    let mut iter = witness.iter();
    for i in (0..=num_pushes).rev() {
        assert_eq!(iter.len(), i);
        iter.next();
    }
}

#[test]
fn from_slice_is_pushing_one_by_one() {
    let elements: Vec<Vec<u8>> = vec![vec![], vec![7; 252], vec![8; 253], vec![9; 70_000]];
    let at_once = Witness::from_slice(&elements);
    let mut one_by_one = Witness::new();
    for element in &elements {
        one_by_one.push(element);
    }
    assert_eq!(at_once, one_by_one);
    assert_eq!(at_once.to_bytes(), elements);
}

#[test]
fn items_of_several_types() {
    let vecs = Witness::from_slice(&[vec![1u8, 2], vec![3]]);
    let slices = Witness::from_slice(&[&[1u8, 2][..], &[3][..]]);
    let arrays = Witness::from_slice(&[[1u8, 2], [3, 4]]);
    let texts = Witness::from_slice(&["ab", "\u{e9}"]);
    let strings = Witness::from_slice(&[String::from("ab")]);
    assert_eq!(vecs, slices);
    assert_eq!(arrays.to_bytes(), vec![vec![1, 2], vec![3, 4]]);
    assert_eq!(texts.to_bytes(), vec![vec![0x61, 0x62], vec![0xc3, 0xa9]]);
    assert_eq!(strings.nth(0), Some(&[0x61u8, 0x62][..]));
}

#[test]
fn items_behind_pointers() {
    let want = Witness::from_slice(&[vec![1u8, 2], vec![3]]);
    let boxes: [Box<[u8]>; 2] = [Box::new([1, 2]), Box::new([3])];
    assert_eq!(Witness::from_slice(&boxes), want);
    let counted: [Rc<[u8]>; 2] = [Rc::new([1, 2]), Rc::new([3])];
    assert_eq!(Witness::from_slice(&counted), want);
    let shared: [Arc<[u8]>; 2] = [Arc::new([1, 2]), Arc::new([3])];
    assert_eq!(Witness::from_slice(&shared), want);
    let cows: [Cow<'_, [u8]>; 2] = [Cow::Borrowed(&[1, 2]), Cow::Owned(vec![3])];
    assert_eq!(Witness::from_slice(&cows), want);
    let mut first = vec![1u8, 2];
    let mut second = vec![3u8];
    let mut pushed = Witness::new();
    pushed.push(&mut first);
    pushed.push(&mut second);
    assert_eq!(pushed, want);
}

#[test]
fn far_indices_have_no_element() {
    let witness = Witness::from_slice(&[vec![7u8]]);
    assert_eq!(witness.nth(0), Some(&[7u8][..]));
    assert_eq!(witness.nth(usize::MAX), None);
    assert_eq!(witness.nth(usize::MAX / 4), None);
    // The slot would end just behind the address space.
    assert_eq!(Witness::new().nth(usize::MAX / 4), None);
    assert_eq!(Witness::new().nth(usize::MAX), None);
    assert_eq!(Witness::from_parts__unstable(vec![1, 2], 7, usize::MAX).last(), None);
}

#[test]
fn what_can_be_looked_up() {
    let witness = Witness::from_slice(&[vec![7u8]]);
    assert!(witness.can_look_up(0));
    assert!(witness.can_look_up(1));
    assert!(witness.can_look_up(usize::MAX));
    // The first cursor points to an element, the second behind the buffer.
    let content = append_u32_vec(&[1, 0xaa], &[0, 100]);
    let stray = Witness::from_parts__unstable(content, 2, 2);
    assert!(stray.can_look_up(0));
    assert!(!stray.can_look_up(1));
    assert!(stray.can_look_up(2));
}

#[test]
fn what_can_be_pushed() {
    let witness = Witness::from_slice(&[vec![7u8]]);
    assert!(witness.can_push(0));
    assert!(witness.can_push(1000));
    assert!(!witness.can_push(usize::MAX));
    assert!(!witness.can_push(isize::MAX as usize));
    // One more cursor does not fit in the largest allocation: 9 bytes of length, 4 of the cursor.
    let largest = isize::MAX as usize - compact_size::encoded_size(isize::MAX as usize) - 4;
    assert!(Witness::new().can_push(largest));
    assert!(!Witness::new().can_push(largest + 1));
    // The counter tells of more cursors than there are.
    assert!(!Witness::from_parts__unstable(vec![0; 5], 2, 1).can_push(0));
    assert!(!Witness::from_parts__unstable(vec![], 0, 1).can_push(0));
}

#[test]
fn what_can_be_counted() {
    assert!(Witness::from_slice(&[vec![7u8]]).is_size_safe());
    let stray = Witness::from_parts__unstable(append_u32_vec(&[0], &[100]), 1, 1);
    assert!(!stray.is_size_safe());
}

#[test]
fn size_counts_elements_with_their_lengths() {
    assert_eq!(Witness::new().size(), 1);
    // One byte for the number of elements, then 1 + 1, 3 + 253 and 5 + 65536 bytes.
    let witness = Witness::from_slice(&[vec![0u8; 1], vec![0; 253], vec![0; 65_536]]);
    assert_eq!(witness.size(), 1 + 2 + 256 + 65_541);
    // The number of elements takes three bytes from 253 elements on.
    let many = Witness::from_slice(&vec![vec![0u8; 0]; 253]);
    assert_eq!(many.size(), 3 + 253);
}

#[test]
fn clear_gives_an_empty_witness() {
    let mut witness = Witness::from_slice(&[vec![1u8], vec![2]]);
    assert!(!witness.is_empty());
    assert_eq!(witness.len(), 2);
    witness.clear();
    assert!(witness.is_empty());
    assert_eq!(witness.len(), 0);
    assert_eq!(witness, Witness::new());
}

#[test]
fn clone_is_equal() {
    let witness = Witness::from_slice(&[vec![1u8], vec![2, 3]]);
    assert_eq!(witness.clone(), witness);
    assert_ne!(witness.clone(), Witness::from_slice(&[vec![1u8, 2], vec![3]]));
}

#[test]
fn iterator_hands_out_the_elements_in_order() {
    let witness = Witness::from_slice(&[vec![1u8], vec![], vec![2, 3]]);
    let mut iter = witness.iter();
    assert_eq!(iter.size_hint(), (3, Some(3)));
    assert_eq!(iter.next(), Some(&[1u8][..]));
    assert_eq!(iter.next(), Some(&[][..]));
    assert_eq!(iter.next(), Some(&[2u8, 3][..]));
    assert_eq!(iter.size_hint(), (0, Some(0)));
    assert_eq!(iter.next(), None);
    assert_eq!(iter.next(), None);
}

#[test]
fn parts_are_taken_as_they_are() {
    // The element counter and the number of cursors differ.
    let content = append_u32_vec(&[1, 0xaa, 1, 0xbb], &[0, 2]);
    let witness = Witness::from_parts__unstable(content, 1, 4);
    assert_eq!(witness.len(), 1);
    assert_eq!(witness.nth(1), Some(&[0xbbu8][..]));
    assert_eq!(witness.last(), Some(&[0xaau8][..]));
    assert_eq!(witness.to_bytes(), vec![vec![0xaa], vec![0xbb]]);
    assert_eq!(witness.size(), 1 + 4);
}

#[test]
fn non_minimal_length_is_read() {
    // A length of one in three bytes.
    let content = append_u32_vec(&[0xfd, 1, 0, 0xcc], &[0]);
    let witness = Witness::from_parts__unstable(content, 1, 4);
    assert_eq!(witness.nth(0), Some(&[0xccu8][..]));
}

#[test]
fn unreadable_parts_are_told_apart() {
    assert!(Witness::from_slice(&[vec![1u8]]).is_walkable());
    // The cursor points behind the buffer.
    let stray = Witness::from_parts__unstable(append_u32_vec(&[0], &[100]), 1, 1);
    assert!(!stray.is_walkable());
    // The length is larger than what is left.
    let cut = Witness::from_parts__unstable(append_u32_vec(&[200], &[0]), 1, 1);
    assert!(!cut.is_walkable());
    // An index area that begins behind the buffer has no cursors.
    let outside = Witness::from_parts__unstable(vec![1, 2], 0, 9);
    assert!(outside.is_walkable());
    assert!(!outside.is_text_safe(false));
    assert!(outside.is_text_safe(true));
    assert_eq!(
        format!("{:#?}", outside),
        "Witness: {\n    indices: 0,\n    indices_start: 9,\n    witnesses: [\n    ],\n}\n"
    );
    assert!(!stray.is_text_safe(true));
    assert_eq!(outside.to_bytes(), Vec::<Vec<u8>>::new());
}

#[test]
fn iteration_over_unreadable_parts_is_told_apart() {
    // The first cursor points to an element, the second behind the buffer.
    let content = append_u32_vec(&[1, 0xaa], &[0, 100]);
    let witness = Witness::from_parts__unstable(content, 2, 2);
    let mut iter = witness.iter();
    assert!(iter.is_next_safe());
    assert!(iter.is_in_bounds());
    assert_eq!(iter.next(), Some(&[0xaau8][..]));
    assert!(!iter.is_next_safe());
    assert_eq!(iter.len(), 1);
    assert!(!Witness::from_parts__unstable(vec![], 0, 1).iter().is_in_bounds());
    let far = Witness::from_parts__unstable(vec![], 0, usize::MAX);
    assert!(far.iter().is_next_safe());
    assert_eq!(far.iter().next(), None);
}

#[test]
fn witnesses_are_ordered_by_their_buffers() {
    let small = Witness::from_slice(&[vec![1u8, 2]]);
    let large = Witness::from_slice(&[vec![1u8, 3]]);
    assert!(small < large);
    assert!(Witness::new() < small);
}

#[test]
fn can_hold_ordinary_items() {
    assert!(Witness::can_hold(&[vec![0u8; 1000]]));
    assert!(Witness::can_hold::<Vec<u8>>(&[]));
}

#[test]
fn compact_size_encodings() {
    assert_eq!(compact_size::encode(0), vec![0]);
    assert_eq!(compact_size::encode(0xfc), vec![0xfc]);
    assert_eq!(compact_size::encode(0xfd), vec![0xfd, 0xfd, 0x00]);
    assert_eq!(compact_size::encode(0xffff), vec![0xfd, 0xff, 0xff]);
    assert_eq!(compact_size::encode(0x1_0000), vec![0xfe, 0, 0, 1, 0]);
    assert_eq!(compact_size::encode(0x1234_5678), vec![0xfe, 0x78, 0x56, 0x34, 0x12]);
    for value in [0usize, 1, 0xfc, 0xfd, 0xffff, 0x1_0000, 0xffff_ffff] {
        let encoded = compact_size::encode(value);
        assert_eq!(encoded.len(), compact_size::encoded_size(value));
        let mut with_rest = encoded.clone();
        with_rest.push(0x55);
        let mut slice = with_rest.as_slice();
        assert!(compact_size::can_decode(slice));
        assert_eq!(compact_size::decode_unchecked(&mut slice), value as u64);
        assert_eq!(slice, &[0x55]);
        assert!(!compact_size::can_decode(&encoded[..encoded.len() - 1]));
    }
}

#[test]
fn compact_size_of_eight_bytes() {
    let bytes = [0xff, 1, 2, 3, 4, 5, 6, 7, 8];
    let mut slice = &bytes[..];
    assert_eq!(compact_size::decode_unchecked(&mut slice), 0x0807_0605_0403_0201);
    assert!(slice.is_empty());
    assert!(!compact_size::can_decode(&bytes[..8]));
}
