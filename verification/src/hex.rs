//! Elements as hexadecimal text, the form that human-readable formats give them.

use crate::bytes;
use crate::iter::Iter;
use crate::layout;
use crate::witness::Witness;
use hex_conservative::{DisplayHex, FromHex, HexToBytesError};
use vstd::prelude::*;

verus! {

/// The hexadecimal digit of value `value`, in lower case.
pub open spec fn digit(value: int) -> char
    recommends
        0 <= value < 16,
{
    "0123456789abcdef"@[value]
}

/// Each byte as two hexadecimal digits in lower case.
pub open spec fn lower_hex(bytes: Seq<u8>) -> Seq<char> {
    Seq::new(
        2 * bytes.len(),
        |i: int|
            if i % 2 == 0 {
                digit(bytes[i / 2] as int / 16)
            } else {
                digit(bytes[i / 2] as int % 16)
            },
    )
}

/// The value of a hexadecimal digit in either case; `None` of any other byte.
pub open spec fn digit_value(byte: u8) -> Option<int> {
    if 0x30 <= byte <= 0x39 {
        Some(byte - 0x30)
    } else if 0x41 <= byte <= 0x46 {
        Some(byte - 0x41 + 10)
    } else if 0x61 <= byte <= 0x66 {
        Some(byte - 0x61 + 10)
    } else {
        None
    }
}

/// The first byte that is no hexadecimal digit.
pub open spec fn first_invalid(text: Seq<u8>) -> Option<u8>
    decreases text.len(),
{
    if text.len() == 0 {
        None
    } else if digit_value(text[0]) is None {
        Some(text[0])
    } else {
        first_invalid(text.drop_first())
    }
}

/// Why a text is not the hexadecimal form of a byte string.
#[derive(Clone, Copy, Debug, PartialEq, Eq, Structural)]
pub enum HexError {
    /// This byte of the text is no hexadecimal digit.
    InvalidChar(u8),
    /// The text has this many bytes, which is an odd number.
    OddLength(usize),
}

/// The byte string whose hexadecimal form is `text`, given as the bytes of the text.
///
/// An odd length comes before an invalid digit, and the first invalid digit is the one that is
/// reported.
pub open spec fn decoding(text: Seq<u8>) -> Result<Seq<u8>, HexError> {
    if text.len() % 2 != 0 {
        Err(HexError::OddLength(text.len() as usize))
    } else {
        match first_invalid(text) {
            Some(byte) => Err(HexError::InvalidChar(byte)),
            None => Ok(
                Seq::new(
                    text.len() / 2,
                    |i: int|
                        (16 * digit_value(text[2 * i])->0 + digit_value(text[2 * i + 1])->0) as u8,
                ),
            ),
        }
    }
}

/// `Vec::<u8>::from_hex` of `hex_conservative`: the bytes that pairs of hexadecimal digits in
/// either case stand for. It fails with the length of the text in bytes if that is odd, and
/// otherwise with the first byte of the text that is no digit.
#[verifier::external_body]
fn from_hex(text: &str) -> (decoded: Result<Vec<u8>, HexError>)
    ensures
        match decoded {
            Ok(bytes) => decoding(vstd::utf8::encode_utf8(text@)) == Ok::<Seq<u8>, HexError>(
                bytes@,
            ),
            Err(error) => decoding(vstd::utf8::encode_utf8(text@)) == Err::<Seq<u8>, HexError>(
                error,
            ),
        },
{
    Vec::<u8>::from_hex(text).map_err(
        |e|
            match e {
                HexToBytesError::InvalidChar(e) => HexError::InvalidChar(e.invalid_char()),
                HexToBytesError::OddLengthString(e) => HexError::OddLength(e.length()),
            },
    )
}

/// `DisplayHex::to_lower_hex_string` of `hex_conservative`: each byte as two hexadecimal digits in
/// lower case. A text that would not fit in memory makes it panic.
#[verifier::external_body]
fn to_lower_hex_string(bytes: &[u8]) -> (text: String)
    requires
        2 * bytes@.len() <= isize::MAX,
    ensures
        text@ == lower_hex(bytes@),
{
    bytes.to_lower_hex_string()
}

/// Why a text cannot be an element.
#[derive(Clone, Copy, Debug, PartialEq, Eq, Structural)]
pub enum InvalidElement {
    /// This character stands where a hexadecimal digit should.
    Char(char),
    /// The text has this many bytes, which is an odd number.
    Length(usize),
}

/// What is wrong with a text of which `error` says why it is not hexadecimal.
///
/// A byte of the text that is no digit is taken for the character with that code.
pub open spec fn invalid_element(error: HexError) -> InvalidElement {
    match error {
        HexError::InvalidChar(byte) => InvalidElement::Char(byte as char),
        HexError::OddLength(length) => InvalidElement::Length(length),
    }
}

impl InvalidElement {
    /// Returns what should have stood there.
    pub fn expected(&self) -> (text: &'static str)
        ensures
            text@ == match self {
                InvalidElement::Char(_) => "a valid hex character"@,
                InvalidElement::Length(_) => "an even length string"@,
            },
    {
        match self {
            InvalidElement::Char(_) => "a valid hex character",
            InvalidElement::Length(_) => "an even length string",
        }
    }
}

/// The element whose text is `text`.
pub open spec fn element_of(text: Seq<char>) -> Result<Seq<u8>, InvalidElement> {
    match decoding(vstd::utf8::encode_utf8(text)) {
        Ok(bytes) => Ok(bytes),
        Err(error) => Err(invalid_element(error)),
    }
}

/// The elements whose texts are `texts`, or what is wrong with the first text that is wrong.
pub open spec fn elements_of(texts: Seq<Seq<char>>) -> Result<Seq<Seq<u8>>, InvalidElement>
    decreases texts.len(),
{
    if texts.len() == 0 {
        Ok(Seq::empty())
    } else {
        match elements_of(texts.drop_last()) {
            Ok(elements) => match element_of(texts.last()) {
                Ok(element) => Ok(elements.push(element)),
                Err(error) => Err(error),
            },
            Err(error) => Err(error),
        }
    }
}

/// The texts of `elements`.
pub open spec fn texts_of(elements: Seq<Seq<u8>>) -> Seq<Seq<char>> {
    Seq::new(elements.len(), |i: int| lower_hex(elements[i]))
}

/// The characters of `strings`.
pub open spec fn chars_of(strings: Seq<String>) -> Seq<Seq<char>> {
    Seq::new(strings.len(), |i: int| strings[i]@)
}

/// Returns the element whose text is `text`.
pub fn decode_element(text: &str) -> (decoded: Result<Vec<u8>, InvalidElement>)
    ensures
        match decoded {
            Ok(element) => element_of(text@) == Ok::<Seq<u8>, InvalidElement>(element@),
            Err(error) => element_of(text@) == Err::<Seq<u8>, InvalidElement>(error),
        },
{
    match from_hex(text) {
        Ok(element) => Ok(element),
        Err(HexError::InvalidChar(byte)) => Err(InvalidElement::Char(byte as char)),
        Err(HexError::OddLength(length)) => Err(InvalidElement::Length(length)),
    }
}

/// Returns the text of an element.
pub fn encode_element(element: &[u8]) -> (text: String)
    requires
        2 * element@.len() <= isize::MAX,
    ensures
        text@ == lower_hex(element@),
{
    to_lower_hex_string(element)
}

/// What is wrong with the first texts is what is wrong with all of them.
proof fn lemma_first_error_stays(texts: Seq<Seq<char>>, count: int)
    requires
        0 <= count <= texts.len(),
    ensures
        elements_of(texts.take(count)) matches Err(error) ==> elements_of(texts) == Err::<
            Seq<Seq<u8>>,
            InvalidElement,
        >(error),
    decreases texts.len() - count,
{
    if count == texts.len() {
        assert(texts.take(count) =~= texts);
    } else {
        assert(texts.take(count + 1).drop_last() =~= texts.take(count));
        lemma_first_error_stays(texts, count + 1);
    }
}

proof fn lemma_all_digits(text: Seq<u8>)
    requires
        forall|i: int| 0 <= i < text.len() ==> digit_value(#[trigger] text[i]) is Some,
    ensures
        first_invalid(text) is None,
    decreases text.len(),
{
    if text.len() > 0 {
        let rest = text.drop_first();
        assert forall|i: int| 0 <= i < rest.len() implies digit_value(
            #[trigger] rest[i],
        ) is Some by {
            assert(rest[i] == text[i + 1]);
        }
        lemma_all_digits(rest);
    }
}

proof fn lemma_digit_value(value: int)
    requires
        0 <= value < 16,
    ensures
        digit(value) as int <= 0x7f,
        digit_value(digit(value) as u8) == Some(value),
{
    reveal_strlit("0123456789abcdef");
}

/// The text of an element is read back as that element.
pub proof fn lemma_text_reads_back(element: Seq<u8>)
    ensures
        element_of(lower_hex(element)) == Ok::<Seq<u8>, InvalidElement>(element),
{
    let chars = lower_hex(element);
    let text = vstd::utf8::encode_utf8(chars);
    assert forall|i: int| 0 <= i < chars.len() implies 0 <= #[trigger] chars[i] as int && chars[i]
        as int <= 0x7f by {
        lemma_digit_value(element[i / 2] as int / 16);
        lemma_digit_value(element[i / 2] as int % 16);
    }
    vstd::utf8::is_ascii_chars_encode_utf8(chars);
    assert forall|i: int| 0 <= i < text.len() implies digit_value(#[trigger] text[i]) is Some by {
        lemma_digit_value(element[i / 2] as int / 16);
        lemma_digit_value(element[i / 2] as int % 16);
        assert(text[i] == chars[i] as u8);
    }
    lemma_all_digits(text);
    let decoded = decoding(text)->Ok_0;
    assert forall|i: int| 0 <= i < element.len() implies #[trigger] decoded[i] == element[i] by {
        lemma_digit_value(element[i] as int / 16);
        lemma_digit_value(element[i] as int % 16);
        assert(text[2 * i] == chars[2 * i] as u8);
        assert(text[2 * i + 1] == chars[2 * i + 1] as u8);
    }
    assert(decoded =~= element);
}

/// The texts of elements are read back as those elements.
pub proof fn lemma_texts_read_back(elements: Seq<Seq<u8>>)
    ensures
        elements_of(texts_of(elements)) == Ok::<Seq<Seq<u8>>, InvalidElement>(elements),
    decreases elements.len(),
{
    if elements.len() > 0 {
        let init = elements.drop_last();
        lemma_texts_read_back(init);
        lemma_text_reads_back(elements.last());
        assert(texts_of(elements).drop_last() =~= texts_of(init));
        assert(init.push(elements.last()) =~= elements);
    } else {
        assert(elements =~= Seq::empty());
    }
}

/// Returns the elements that have the given texts, or what is wrong with the first text that is
/// wrong.
fn decode_elements(texts: &[String]) -> (decoded: Result<Vec<Vec<u8>>, InvalidElement>)
    ensures
        elements_of(chars_of(texts@)) == match decoded {
            Ok(elements) => Ok::<Seq<Seq<u8>>, InvalidElement>(bytes::byte_strings(elements@)),
            Err(error) => Err::<Seq<Seq<u8>>, InvalidElement>(error),
        },
{
    let ghost chars = chars_of(texts@);
    let mut elements: Vec<Vec<u8>> = Vec::new();
    let mut i: usize = 0;
    assert(chars.take(0) =~= Seq::empty());
    assert(bytes::byte_strings(elements@) =~= Seq::empty());
    while i < texts.len()
        invariant
            chars == chars_of(texts@),
            i <= texts@.len(),
            elements_of(chars.take(i as int)) == Ok::<Seq<Seq<u8>>, InvalidElement>(
                bytes::byte_strings(elements@),
            ),
        decreases texts@.len() - i,
    {
        let ghost before = bytes::byte_strings(elements@);
        assert(chars.take(i + 1).drop_last() =~= chars.take(i as int));
        match decode_element(texts[i].as_str()) {
            Ok(element) => {
                elements.push(element);
                assert(bytes::byte_strings(elements@) =~= before.push(element@));
            },
            Err(error) => {
                proof {
                    lemma_first_error_stays(chars, i + 1);
                }
                return Err(error);
            },
        }
        i = i + 1;
    }
    assert(chars.take(chars.len() as int) =~= chars);
    Ok(elements)
}

/// Whether a witness can hold the elements that have the given texts, unless a text is wrong.
pub open spec fn texts_fit(texts: Seq<Seq<char>>) -> bool {
    elements_of(texts) matches Ok(elements) ==> layout::fits(elements)
}

impl Witness {
    /// Returns the witness whose elements have the given texts, or what is wrong with the first
    /// text that is wrong.
    pub fn from_hex_elements(texts: &[String]) -> (decoded: Result<Self, InvalidElement>)
        requires
            texts_fit(chars_of(texts@)),
        ensures
            match decoded {
                Ok(witness) => witness.wf() && elements_of(chars_of(texts@)) == Ok::<
                    Seq<Seq<u8>>,
                    InvalidElement,
                >(witness@),
                Err(error) => elements_of(chars_of(texts@)) == Err::<
                    Seq<Seq<u8>>,
                    InvalidElement,
                >(error),
            },
            decoded matches Ok(witness) ==> witness@.len() == texts@.len() && forall|i: int|
                0 <= i < texts@.len() ==> element_of(#[trigger] texts@[i]@) == Ok::<
                    Seq<u8>,
                    InvalidElement,
                >(witness@[i]),
            decoded is Ok <==> forall|i: int|
                0 <= i < texts@.len() ==> element_of(#[trigger] texts@[i]@) is Ok,
    {
        proof {
            let chars = chars_of(texts@);
            lemma_elements_of(chars);
            assert forall|i: int| 0 <= i < texts@.len() implies #[trigger] texts@[i]@ == chars[i] by {
            }
            assert forall|i: int| 0 <= i < chars.len() implies #[trigger] chars[i] == texts@[i]@ by {
            }
        }
        match decode_elements(texts) {
            Ok(elements) => Ok(Witness::from_slice(elements.as_slice())),
            Err(error) => Err(error),
        }
    }

    /// Returns whether a witness can hold the elements that have the given texts, unless a text is
    /// wrong.
    pub fn can_hold_hex_elements(texts: &[String]) -> (can: bool)
        ensures
            can == texts_fit(chars_of(texts@)),
    {
        match decode_elements(texts) {
            Ok(elements) => Witness::can_hold(elements.as_slice()),
            Err(_) => true,
        }
    }

    /// Whether all elements can be read, and the text of each stays within the largest size of an
    /// allocation.
    pub open spec fn hex_safe(&self) -> bool {
        &&& self.walk_safe()
        &&& forall|i: int|
            0 <= i < self.indexed_elements().len() ==> 2
                * #[trigger] self.indexed_elements()[i].len() <= isize::MAX
    }

    /// Returns whether all elements have a text.
    pub fn is_hex_safe(&self) -> (safe: bool)
        ensures
            safe == self.hex_safe(),
    {
        let ghost elements = self.indexed_elements();
        let limit: usize = isize::MAX as usize / 2;
        if !self.is_walkable() {
            return false;
        }
        proof {
            self.lemma_parts();
        }
        let mut iter: Iter = self.iter();
        let mut done: bool = false;
        while !done
            invariant
                elements == self.indexed_elements(),
                limit == isize::MAX / 2,
                iter.content_bytes() == self.content_bytes(),
                iter.index_start() == self.index_start(),
                0 <= self.index_start(),
                layout::walkable(self.content_bytes(), self.index_start()),
                0 <= iter.position() <= elements.len(),
                forall|i: int|
                    0 <= i < iter.position() ==> 2 * #[trigger] elements[i].len() <= isize::MAX,
                done ==> iter.position() == elements.len(),
            decreases elements.len() - iter.position(), !done as int,
        {
            let ghost position = iter.position();
            proof {
                layout::lemma_slots(self.content_bytes(), self.index_start(), position);
            }
            match iter.next() {
                Some(elem) => {
                    assert(elem@ == elements[position]);
                    if elem.len() > limit {
                        return false;
                    }
                },
                None => done = true,
            }
        }
        true
    }

    /// Returns the texts of the elements.
    pub fn to_hex_elements(&self) -> (texts: Vec<String>)
        requires
            self.hex_safe(),
        ensures
            chars_of(texts@) == texts_of(self.indexed_elements()),
            self.wf() ==> chars_of(texts@) == texts_of(self@),
    {
        let ghost elements = self.indexed_elements();
        proof {
            self.lemma_walk();
        }
        let mut texts: Vec<String> = Vec::new();
        let mut iter: Iter = self.iter();
        let mut done: bool = false;
        while !done
            invariant
                elements == self.indexed_elements(),
                iter.content_bytes() == self.content_bytes(),
                iter.index_start() == self.index_start(),
                0 <= self.index_start(),
                layout::walkable(self.content_bytes(), self.index_start()),
                forall|i: int|
                    0 <= i < elements.len() ==> 2 * #[trigger] elements[i].len() <= isize::MAX,
                iter.position() == texts@.len(),
                iter.position() <= elements.len(),
                forall|i: int|
                    0 <= i < texts@.len() ==> #[trigger] texts@[i]@ == lower_hex(elements[i]),
                done ==> texts@.len() == elements.len(),
            decreases elements.len() - iter.position(), !done as int,
        {
            proof {
                layout::lemma_slots(self.content_bytes(), self.index_start(), iter.position());
            }
            match iter.next() {
                Some(elem) => {
                    assert(elem@ == elements[texts@.len() as int]);
                    texts.push(encode_element(elem));
                },
                None => done = true,
            }
        }
        assert(chars_of(texts@) =~= texts_of(elements));
        texts
    }
}

/// The digits are the characters from `0` to `9` and from `a` to `f`. Read back, the letters count in
/// either case, and no other byte is a digit.
pub proof fn lemma_digits(value: int, byte: u8)
    requires
        0 <= value < 16,
    ensures
        digit(value) as int == if value < 10 {
            0x30 + value
        } else {
            0x61 + value - 10
        },
        digit_value(digit(value) as u8) == Some(value),
        digit_value(byte) == Some(value) <==> byte == digit(value) as u8 || value >= 10 && byte
            == digit(value) as u8 - 0x20,
        digit_value(byte) is Some <==> 0x30 <= byte <= 0x39 || 0x41 <= byte <= 0x46 || 0x61 <= byte
            <= 0x66,
{
    reveal_strlit("0123456789abcdef");
}

/// The text of an element has two digits for each byte: the high half of the byte, then the low
/// half, each from `0` to `9` or from `a` to `f`.
pub proof fn lemma_lower_hex(element: Seq<u8>, index: int)
    requires
        0 <= index < element.len(),
    ensures
        lower_hex(element).len() == 2 * element.len(),
        ({
            let high = element[index] as int / 16;
            let low = element[index] as int % 16;
            &&& lower_hex(element)[2 * index] as int == if high < 10 {
                0x30 + high
            } else {
                0x61 + high - 10
            }
            &&& lower_hex(element)[2 * index + 1] as int == if low < 10 {
                0x30 + low
            } else {
                0x61 + low - 10
            }
        }),
        lower_hex(Seq::empty()).len() == 0,
{
    lemma_digits(element[index] as int / 16, 0);
    lemma_digits(element[index] as int % 16, 0);
    assert((2 * index) / 2 == index && (2 * index) % 2 == 0);
    assert((2 * index + 1) / 2 == index && (2 * index + 1) % 2 == 1);
}

proof fn lemma_first_invalid(text: Seq<u8>, index: int)
    requires
        0 <= index < text.len(),
        digit_value(text[index]) is None,
        forall|i: int| 0 <= i < index ==> digit_value(#[trigger] text[i]) is Some,
    ensures
        first_invalid(text) == Some(text[index]),
    decreases index,
{
    if index > 0 {
        assert(digit_value(text[0]) is Some);
        let rest = text.drop_first();
        assert forall|i: int| 0 <= i < index - 1 implies digit_value(#[trigger] rest[i]) is Some by {
            assert(rest[i] == text[i + 1]);
        }
        lemma_first_invalid(rest, index - 1);
    }
}

/// An element is read from a text exactly if its UTF-8 form has an even number of bytes which are
/// all digits. Each pair of digits is then a byte.
pub proof fn lemma_element_of(text: Seq<char>)
    ensures
        ({
            let b = vstd::utf8::encode_utf8(text);
            &&& element_of(text) is Ok <==> b.len() % 2 == 0 && forall|i: int|
                0 <= i < b.len() ==> digit_value(#[trigger] b[i]) is Some
            &&& element_of(text) matches Ok(element) ==> element.len() * 2 == b.len() && forall|i: int|

                0 <= i < element.len() ==> #[trigger] element[i] == 16 * digit_value(b[2 * i])->0
                    + digit_value(b[2 * i + 1])->0
        }),
{
    let b = vstd::utf8::encode_utf8(text);
    if forall|i: int| 0 <= i < b.len() ==> digit_value(#[trigger] b[i]) is Some {
        lemma_all_digits(b);
        if b.len() % 2 == 0 {
            let element = element_of(text)->Ok_0;
            assert forall|i: int| 0 <= i < element.len() implies #[trigger] element[i] == 16
                * digit_value(b[2 * i])->0 + digit_value(b[2 * i + 1])->0 by {
                assert(digit_value(b[2 * i]) is Some);
                assert(digit_value(b[2 * i + 1]) is Some);
            }
        }
    } else {
        let wrong = choose|i: int| 0 <= i < b.len() && digit_value(#[trigger] b[i]) is None;
        lemma_some_invalid(b, wrong);
    }
}

proof fn lemma_some_invalid(text: Seq<u8>, index: int)
    requires
        0 <= index < text.len(),
        digit_value(text[index]) is None,
    ensures
        first_invalid(text) is Some,
    decreases index,
{
    if index > 0 && digit_value(text[0]) is Some {
        assert(text.drop_first()[index - 1] == text[index]);
        lemma_some_invalid(text.drop_first(), index - 1);
    }
}

/// What is wrong with a text: first of all an odd number of bytes, and else the first byte that is no
/// digit.
pub proof fn lemma_element_errors(text: Seq<char>, index: int)
    ensures
        ({
            let b = vstd::utf8::encode_utf8(text);
            &&& b.len() % 2 == 1 ==> element_of(text) == Err::<Seq<u8>, InvalidElement>(
                InvalidElement::Length(b.len() as usize),
            )
            &&& b.len() % 2 == 0 && 0 <= index < b.len() && digit_value(b[index]) is None && (forall|
                i: int,
            |
                0 <= i < index ==> digit_value(#[trigger] b[i]) is Some) ==> (element_of(
                text,
            ) matches Err(InvalidElement::Char(c)) && c as int == b[index] as int)
        }),
{
    let b = vstd::utf8::encode_utf8(text);
    if 0 <= index < b.len() && digit_value(b[index]) is None && (forall|i: int|
        0 <= i < index ==> digit_value(#[trigger] b[i]) is Some) {
        lemma_first_invalid(b, index);
    }
}

/// What the decoding itself says of a text is what the element read from it says.
pub proof fn lemma_decoding_and_element(text: Seq<char>)
    ensures
        match decoding(vstd::utf8::encode_utf8(text)) {
            Ok(bytes) => element_of(text) == Ok::<Seq<u8>, InvalidElement>(bytes),
            Err(HexError::OddLength(length)) => element_of(text) == Err::<Seq<u8>, InvalidElement>(
                InvalidElement::Length(length),
            ),
            Err(HexError::InvalidChar(byte)) => element_of(text) matches Err(InvalidElement::Char(c))
                && c as int == byte as int,
        },
{
}

/// Texts are read exactly if each of them is, and then there is one element for each text, in the
/// same order. Otherwise the error is that of the first text that is wrong.
pub proof fn lemma_elements_of(texts: Seq<Seq<char>>)
    ensures
        elements_of(texts) is Ok <==> forall|i: int|
            0 <= i < texts.len() ==> element_of(#[trigger] texts[i]) is Ok,
        elements_of(texts) matches Ok(elements) ==> elements.len() == texts.len() && forall|i: int|
            0 <= i < texts.len() ==> element_of(#[trigger] texts[i]) == Ok::<
                Seq<u8>,
                InvalidElement,
            >(elements[i]),
        elements_of(texts) matches Err(error) ==> exists|i: int|
            {
                &&& 0 <= i < texts.len()
                &&& element_of(#[trigger] texts[i]) == Err::<Seq<u8>, InvalidElement>(error)
                &&& forall|j: int| 0 <= j < i ==> element_of(#[trigger] texts[j]) is Ok
            },
    decreases texts.len(),
{
    if texts.len() > 0 {
        let init = texts.drop_last();
        lemma_elements_of(init);
        assert forall|i: int| 0 <= i < init.len() implies #[trigger] texts[i] == init[i] by {}
        match elements_of(init) {
            Ok(elements) => {
                assert forall|i: int| 0 <= i < init.len() implies element_of(
                    #[trigger] texts[i],
                ) is Ok by {
                    assert(element_of(init[i]) is Ok);
                }
                if let Ok(element) = element_of(texts.last()) {
                    let all = elements.push(element);
                    assert forall|i: int| 0 <= i < texts.len() implies element_of(
                        #[trigger] texts[i],
                    ) == Ok::<Seq<u8>, InvalidElement>(all[i]) by {
                        if i < init.len() {
                            assert(element_of(init[i]) == Ok::<Seq<u8>, InvalidElement>(
                                elements[i],
                            ));
                        }
                    }
                } else {
                    assert(texts[texts.len() - 1] == texts.last());
                }
            },
            Err(error) => {
                let i = choose|i: int|
                    {
                        &&& 0 <= i < init.len()
                        &&& element_of(#[trigger] init[i]) == Err::<Seq<u8>, InvalidElement>(error)
                        &&& forall|j: int| 0 <= j < i ==> element_of(#[trigger] init[j]) is Ok
                    };
                assert(element_of(texts[i]) == Err::<Seq<u8>, InvalidElement>(error));
                assert forall|j: int| 0 <= j < i implies element_of(#[trigger] texts[j]) is Ok by {
                    assert(element_of(init[j]) is Ok);
                }
            },
        }
    }
}

/// There is one text for each element and one list of characters for each string, in their order.
pub proof fn lemma_one_for_each(elements: Seq<Seq<u8>>, strings: Seq<String>)
    ensures
        texts_of(elements).len() == elements.len(),
        forall|i: int|
            0 <= i < elements.len() ==> #[trigger] texts_of(elements)[i] == lower_hex(elements[i]),
        chars_of(strings).len() == strings.len(),
        forall|i: int| 0 <= i < strings.len() ==> #[trigger] chars_of(strings)[i] == strings[i]@,
{
}

/// When elements can be read from texts and written as texts: if what is read fits in a witness, and
/// if all elements can be read and are at most half as long as an allocation can be.
pub proof fn lemma_when_hex(texts: Seq<Seq<char>>, witness: &Witness)
    ensures
        elements_of(texts) is Err ==> texts_fit(texts),
        elements_of(texts) matches Ok(elements) ==> (texts_fit(texts) <==> layout::fits(elements)),
        witness.hex_safe() <==> witness.walk_safe() && forall|i: int|
            0 <= i < witness.indexed_elements().len()
                ==> #[trigger] witness.indexed_elements()[i].len() <= isize::MAX / 2,
{
}

} // verus!
