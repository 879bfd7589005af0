use std::cell::Cell;
use std::fmt;
use std::io;

use serde::Serializer;
use witness::hex::{decode_element, encode_element};
use witness::{InvalidElement, Witness};

fn arbitrary_witness() -> Witness {
    let mut witness = Witness::default();

    witness.push(&[0_u8]);
    witness.push(&[1_u8; 32]);
    witness.push(&[2_u8; 72]);

    witness
}

#[test]
fn serde_bincode_backward_compatibility() {
    let old_witness_format = vec![vec![0u8], vec![2]];
    let new_witness_format = Witness::from_slice(&old_witness_format);

    let old = bincode::serialize(&old_witness_format).unwrap();
    let new = bincode::serialize(&new_witness_format.to_bytes()).unwrap();

    assert_eq!(old, new);
}

#[test]
fn serde_bincode_roundtrips() {
    let original = arbitrary_witness();
    let ser = bincode::serialize(&original.to_bytes()).unwrap();
    let elements: Vec<Vec<u8>> = bincode::deserialize(&ser).unwrap();
    let rinsed = Witness::from_slice(&elements);
    assert_eq!(rinsed, original);
}

#[test]
fn serde_human_roundtrips() {
    let original = arbitrary_witness();
    let ser = serde_json::to_string(&original.to_hex_elements()).unwrap();
    let texts: Vec<String> = serde_json::from_str(&ser).unwrap();
    let rinsed: Witness = Witness::from_hex_elements(&texts).unwrap();
    assert_eq!(rinsed, original);
}

#[test]
fn serde_human() {
    let witness = Witness::from_slice(&[vec![0u8, 123, 75], vec![2u8, 6, 3, 7, 8]]);
    let json = serde_json::to_string(&witness.to_hex_elements()).unwrap();
    assert_eq!(json, r#"["007b4b","0206030708"]"#);
}

#[test]
fn hex_in_either_case() {
    assert_eq!(decode_element("DEADbeef09"), Ok(vec![0xde, 0xad, 0xbe, 0xef, 0x09]));
    assert_eq!(decode_element(""), Ok(vec![]));
}

#[test]
fn hex_in_lower_case() {
    assert_eq!(encode_element(&[0xde, 0xad, 0x09]), "dead09");
    assert_eq!(encode_element(&[]), "");
}

#[test]
fn hex_that_is_not() {
    assert_eq!(decode_element("0g"), Err(InvalidElement::Char('g')));
    assert_eq!(decode_element("zy"), Err(InvalidElement::Char('z')));
    assert_eq!(decode_element("abc"), Err(InvalidElement::Length(3)));
    // An odd length comes before an invalid digit.
    assert_eq!(decode_element("xyz"), Err(InvalidElement::Length(3)));
    // The first byte of a character of two bytes.
    assert_eq!(decode_element("\u{ab}"), Err(InvalidElement::Char('\u{c2}')));
    assert_eq!(InvalidElement::Char('g').expected(), "a valid hex character");
    assert_eq!(InvalidElement::Length(3).expected(), "an even length string");
}

#[test]
fn first_wrong_text_is_reported() {
    let texts = [String::from("00"), String::from("0q"), String::from("123")];
    assert_eq!(Witness::from_hex_elements(&texts), Err(InvalidElement::Char('q')));
    let texts = [String::from("123"), String::from("0q")];
    assert_eq!(Witness::from_hex_elements(&texts), Err(InvalidElement::Length(3)));
    assert_eq!(Witness::from_hex_elements(&[]), Ok(Witness::new()));
}

#[test]
fn debug_on_one_line() {
    assert_eq!(
        format!("{:?}", Witness::new()),
        "Witness: { indices: 0, indices_start: 0, witnesses: [] }"
    );
    let witness = Witness::from_slice(&[vec![0u8, 0xab], vec![], vec![0x10; 10]]);
    assert_eq!(
        format!("{:?}", witness),
        "Witness: { indices: 3, indices_start: 15, witnesses: [[0x00, 0xab], [], \
         [0x10, 0x10, 0x10, 0x10, 0x10, 0x10, 0x10, 0x10, 0x10, 0x10]] }"
    );
    assert_eq!(witness.to_debug_string(false), format!("{:?}", witness));
    assert_eq!(witness.to_debug_string(true), format!("{:#?}", witness));
}

#[test]
fn debug_on_several_lines() {
    assert_eq!(
        format!("{:#?}", Witness::new()),
        "Witness: {\n    indices: 0,\n    indices_start: 0,\n    witnesses: [\n    ],\n}\n"
    );
    let witness = Witness::from_slice(&[vec![0u8, 0xab], vec![]]);
    assert_eq!(
        format!("{:#?}", witness),
        "Witness: {\n    indices: 2,\n    indices_start: 4,\n    witnesses: [\n        \
         [0x00, 0xab],\n        [],\n    ],\n}\n"
    );
}

// Records whether the witness could be written out.
struct Probe<'a> {
    witness: &'a Witness,
    written: Cell<bool>,
}

impl fmt::Display for Probe<'_> {
    fn fmt(&self, f: &mut fmt::Formatter<'_>) -> fmt::Result {
        let written = fmt::Debug::fmt(self.witness, f);
        self.written.set(written.is_ok());
        written
    }
}

impl fmt::Debug for Probe<'_> {
    fn fmt(&self, f: &mut fmt::Formatter<'_>) -> fmt::Result {
        self.written.set(fmt::Debug::fmt(self.witness, f).is_ok());
        Ok(())
    }
}

#[test]
fn unreadable_witness_has_no_text() {
    // The cursor points behind the buffer.
    let mut content = vec![0u8];
    content.extend_from_slice(&100u32.to_ne_bytes());
    let stray = Witness::from_parts__unstable(content, 1, 1);
    let probe = Probe { witness: &stray, written: Cell::new(true) };
    assert_eq!(format!("{:?}", probe), "");
    assert!(!probe.written.get());
    probe.written.set(true);
    assert_eq!(format!("{:#?}", probe), "");
    assert!(!probe.written.get());

    let empty = Witness::new();
    let probe = Probe { witness: &empty, written: Cell::new(false) };
    assert_eq!(
        format!("<{:?}>", probe),
        "<Witness: { indices: 0, indices_start: 0, witnesses: [] }>"
    );
    assert!(probe.written.get());
}

// A writer that takes whole pieces as long as they fit, and none that comes after one that did not.
struct Bounded {
    taken: Vec<u8>,
    room: usize,
    refused: usize,
    writes_after: usize,
}

impl io::Write for Bounded {
    fn write(&mut self, piece: &[u8]) -> io::Result<usize> {
        if self.refused > 0 {
            self.writes_after += 1;
        }
        if self.refused > 0 || piece.len() > self.room - self.taken.len() {
            self.refused += 1;
            return Err(io::Error::from(io::ErrorKind::WriteZero));
        }
        self.taken.extend_from_slice(piece);
        Ok(piece.len())
    }

    fn flush(&mut self) -> io::Result<()> { Ok(()) }
}

#[test]
fn failed_write_ends_the_text() {
    let witness = Witness::from_slice(&[vec![0u8, 0xab], vec![], vec![7]]);
    // The serializer puts quotation marks round the text.
    let whole = format!("\"{:?}\"", witness);
    for room in 1..whole.len() {
        let mut target = Bounded { taken: vec![], room, refused: 0, writes_after: 0 };
        let probe = Probe { witness: &witness, written: Cell::new(true) };
        let ended = serde_json::Serializer::new(&mut target).collect_str(&probe);
        assert!(ended.is_err());
        // With room for all but the last quotation mark the text itself is complete.
        assert_eq!(probe.written.get(), room == whole.len() - 1);
        assert_eq!(target.refused, 1);
        assert_eq!(target.writes_after, 0);
        assert!(whole.as_bytes().starts_with(&target.taken));
    }

    let mut target = Bounded { taken: vec![], room: 22, refused: 0, writes_after: 0 };
    let probe = Probe { witness: &witness, written: Cell::new(true) };
    assert!(serde_json::Serializer::new(&mut target).collect_str(&probe).is_err());
    assert_eq!(target.taken, b"\"Witness: { indices: 3");

    let mut target = Bounded { taken: vec![], room: whole.len(), refused: 0, writes_after: 0 };
    let probe = Probe { witness: &witness, written: Cell::new(false) };
    assert!(serde_json::Serializer::new(&mut target).collect_str(&probe).is_ok());
    assert!(probe.written.get());
    assert_eq!(target.taken, whole.as_bytes());
}

#[test]
fn texts_that_fit() {
    let texts = [String::from("00ff"), String::from("")];
    assert!(Witness::can_hold_hex_elements(&texts));
    // Texts that are wrong are told apart by decoding them.
    assert!(Witness::can_hold_hex_elements(&[String::from("0q")]));
    assert!(Witness::from_slice(&[vec![1u8]]).is_hex_safe());
    // The cursor points behind the buffer.
    let mut content = vec![0u8];
    content.extend_from_slice(&100u32.to_ne_bytes());
    assert!(!Witness::from_parts__unstable(content, 1, 1).is_hex_safe());
}
