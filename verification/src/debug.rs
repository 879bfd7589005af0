//! The text of a witness for debugging.

use crate::hex;
use crate::iter::Iter;
use crate::layout;
use crate::witness::Witness;
use vstd::prelude::*;
use vstd::string::StringExecFns;

verus! {

/// `value` in decimal, without leading zeros.
pub open spec fn decimal(value: nat) -> Seq<char>
    decreases value,
{
    if value < 10 {
        seq![hex::digit(value as int)]
    } else {
        decimal(value / 10).push(hex::digit((value % 10) as int))
    }
}

/// A byte as `0x` and two hexadecimal digits.
pub open spec fn byte_text(byte: u8) -> Seq<char> {
    "0x"@ + seq![hex::digit(byte as int / 16), hex::digit(byte as int % 16)]
}

/// The texts one after the other, each with a comma and a space behind it.
pub open spec fn with_commas(texts: Seq<Seq<char>>) -> Seq<char>
    decreases texts.len(),
{
    if texts.len() == 0 {
        Seq::empty()
    } else {
        with_commas(texts.drop_last()) + texts.last() + ", "@
    }
}

/// The texts one after the other, with a comma and a space between them.
pub open spec fn joined(texts: Seq<Seq<char>>) -> Seq<char> {
    if texts.len() == 0 {
        Seq::empty()
    } else {
        with_commas(texts.drop_last()) + texts.last()
    }
}

/// The texts of the bytes of an element.
pub open spec fn byte_texts(element: Seq<u8>) -> Seq<Seq<char>> {
    Seq::new(element.len(), |i: int| byte_text(element[i]))
}

/// An element as a list of bytes in square brackets.
pub open spec fn element_text(element: Seq<u8>) -> Seq<char> {
    "["@ + joined(byte_texts(element)) + "]"@
}

/// The texts of the elements.
pub open spec fn element_texts(elements: Seq<Seq<u8>>) -> Seq<Seq<char>> {
    Seq::new(elements.len(), |i: int| element_text(elements[i]))
}

/// What stands before the elements in the text on one line.
pub open spec fn debug_head(count: nat, start: nat) -> Seq<char> {
    "Witness: { indices: "@ + decimal(count) + ", indices_start: "@ + decimal(start)
        + ", witnesses: ["@
}

/// The text of a witness on one line.
pub open spec fn debug_text(count: nat, start: nat, elements: Seq<Seq<u8>>) -> Seq<char> {
    debug_head(count, start) + joined(element_texts(elements)) + "] }"@
}

/// The lines of the elements, one line each.
pub open spec fn element_lines(elements: Seq<Seq<u8>>) -> Seq<char>
    decreases elements.len(),
{
    if elements.len() == 0 {
        Seq::empty()
    } else {
        element_lines(elements.drop_last()) + "        "@ + element_text(elements.last()) + ",\n"@
    }
}

/// What stands before the elements in the text on several lines.
pub open spec fn pretty_head(count: nat, start: nat) -> Seq<char> {
    "Witness: {\n    indices: "@ + decimal(count) + ",\n    indices_start: "@ + decimal(start)
        + ",\n    witnesses: [\n"@
}

/// The text of a witness on several lines.
pub open spec fn pretty_text(count: nat, start: nat, elements: Seq<Seq<u8>>) -> Seq<char> {
    pretty_head(count, start) + element_lines(elements) + "    ],\n}\n"@
}

/// The text that was accepted: the texts of the writes that succeeded, one after the other.
pub open spec fn accepted_text(writes: Seq<(Seq<char>, bool)>) -> Seq<char>
    decreases writes.len(),
{
    if writes.len() == 0 {
        Seq::empty()
    } else if writes.last().1 {
        accepted_text(writes.drop_last()) + writes.last().0
    } else {
        accepted_text(writes.drop_last())
    }
}

/// The number of writes that failed.
pub open spec fn failed_writes(writes: Seq<(Seq<char>, bool)>) -> nat
    decreases writes.len(),
{
    if writes.len() == 0 {
        0
    } else if writes.last().1 {
        failed_writes(writes.drop_last())
    } else {
        failed_writes(writes.drop_last()) + 1
    }
}

/// Whether the last write failed.
pub open spec fn ends_in_failure(writes: Seq<(Seq<char>, bool)>) -> bool {
    writes.len() > 0 && !writes.last().1
}

/// Whether `after` is `before` and then the beginning of `text`: all of it, a part, or nothing.
pub open spec fn begun(before: Seq<char>, after: Seq<char>, text: Seq<char>) -> bool {
    &&& before.len() <= after.len()
    &&& after.is_prefix_of(before + text)
}

/// What the writes are after writing out `text`, given what they were before.
///
/// On success every write succeeded, and all of the text was accepted. Otherwise one write failed,
/// it was the last one, and what was accepted before it is the beginning of the text.
pub open spec fn written_out(
    before: Seq<(Seq<char>, bool)>,
    after: Seq<(Seq<char>, bool)>,
    text: Seq<char>,
    success: bool,
) -> bool {
    &&& before.is_prefix_of(after)
    &&& if success {
        &&& accepted_text(after) == accepted_text(before) + text
        &&& failed_writes(after) == failed_writes(before)
    } else {
        &&& begun(accepted_text(before), accepted_text(after), text)
        &&& failed_writes(after) == failed_writes(before) + 1
        &&& ends_in_failure(after)
    }
}

/// Failed writes do not become fewer, and become more by each new write that failed.
proof fn lemma_failed_writes(before: Seq<(Seq<char>, bool)>, after: Seq<(Seq<char>, bool)>)
    requires
        before.is_prefix_of(after),
    ensures
        failed_writes(before) <= failed_writes(after),
        failed_writes(before) == failed_writes(after) ==> forall|i: int|
            before.len() <= i < after.len() ==> (#[trigger] after[i]).1,
    decreases after.len(),
{
    if before.len() < after.len() {
        let init = after.drop_last();
        assert(before =~= init.subrange(0, before.len() as int)) by {
            assert(after.subrange(0, before.len() as int) =~= init.subrange(
                0,
                before.len() as int,
            ));
        }
        lemma_failed_writes(before, init);
        if failed_writes(before) == failed_writes(after) {
            assert forall|i: int| before.len() <= i < after.len() implies (#[trigger] after[i]).1 by {
                if i + 1 < after.len() {
                    assert(init[i].1);
                }
            }
        }
    } else {
        assert(before =~= after);
    }
}

/// When a text is written out, the writes made before stay as they are, every new write but the
/// last one succeeds, and the whole succeeds exactly if the last one does too. So no write follows
/// one that failed. The texts of the new writes that succeeded make up the text on success, and else
/// its beginning.
pub proof fn lemma_failure_ends_the_writes(
    before: Seq<(Seq<char>, bool)>,
    after: Seq<(Seq<char>, bool)>,
    text: Seq<char>,
    success: bool,
)
    requires
        written_out(before, after, text, success),
    ensures
        before.len() <= after.len(),
        after.take(before.len() as int) == before,
        forall|i: int| before.len() <= i < after.len() - 1 ==> (#[trigger] after[i]).1,
        success <==> forall|i: int| before.len() <= i < after.len() ==> (#[trigger] after[i]).1,
        success ==> accepted_text(after.skip(before.len() as int)) == text,
        accepted_text(after.skip(before.len() as int)).is_prefix_of(text),
{
    let new = after.skip(before.len() as int);
    assert(before + new =~= after);
    lemma_accepted_text(before, new);
    assert(accepted_text(new) =~= accepted_text(after).skip(accepted_text(before).len() as int));
    if success {
        assert(accepted_text(new) =~= text);
        assert(text =~= text.subrange(0, text.len() as int));
    } else {
        let part = accepted_text(new);
        let whole = accepted_text(before) + text;
        assert(part =~= text.subrange(0, part.len() as int)) by {
            assert forall|i: int| 0 <= i < part.len() implies part[i] == text[i] by {
                let at = accepted_text(before).len() + i;
                assert(accepted_text(after)[at] == whole.subrange(
                    0,
                    accepted_text(after).len() as int,
                )[at]);
            }
        }
    }
    if success {
        lemma_failed_writes(before, after);
    } else {
        let init = after.drop_last();
        assert(before.len() < after.len()) by {
            if before.len() == after.len() {
                assert(before =~= after);
            }
        }
        assert(before =~= init.subrange(0, before.len() as int)) by {
            assert(after.subrange(0, before.len() as int) =~= init.subrange(
                0,
                before.len() as int,
            ));
        }
        lemma_failed_writes(before, init);
        assert forall|i: int| before.len() <= i < after.len() - 1 implies (#[trigger] after[i]).1 by {
            assert(init[i].1);
        }
        assert(!after[after.len() - 1].1);
    }
}

/// Returns the digit of value `value`.
fn digit_str(value: u8) -> (text: &'static str)
    requires
        value < 16,
    ensures
        text@ == seq![hex::digit(value as int)],
{
    proof {
        reveal_strlit("0123456789abcdef");
        reveal_strlit("0");
        reveal_strlit("1");
        reveal_strlit("2");
        reveal_strlit("3");
        reveal_strlit("4");
        reveal_strlit("5");
        reveal_strlit("6");
        reveal_strlit("7");
        reveal_strlit("8");
        reveal_strlit("9");
        reveal_strlit("a");
        reveal_strlit("b");
        reveal_strlit("c");
        reveal_strlit("d");
        reveal_strlit("e");
        reveal_strlit("f");
    }
    let text: &'static str = match value {
        0 => "0",
        1 => "1",
        2 => "2",
        3 => "3",
        4 => "4",
        5 => "5",
        6 => "6",
        7 => "7",
        8 => "8",
        9 => "9",
        10 => "a",
        11 => "b",
        12 => "c",
        13 => "d",
        14 => "e",
        _ => "f",
    };
    assert(text@ =~= seq![hex::digit(value as int)]);
    text
}

/// Where a text is written to, piece by piece.
trait Sink {
    /// The text that was accepted so far.
    spec fn accepted(&self) -> Seq<char>;

    /// The writes that were made, as far as they are kept.
    spec fn log(&self) -> Seq<(Seq<char>, bool)>;

    /// The number of pieces that were refused.
    spec fn refusals(&self) -> nat;

    /// Whether the last piece was refused.
    spec fn refused_last(&self) -> bool;

    /// Whether every piece is accepted.
    spec fn accepts_all() -> bool;

    /// Writes a piece, which is accepted or refused.
    fn put(&mut self, piece: &str) -> (written: Result<(), core::fmt::Error>)
        ensures
            written is Ok ==> {
                &&& final(self).accepted() == old(self).accepted() + piece@
                &&& final(self).refusals() == old(self).refusals()
            },
            written is Err ==> {
                &&& final(self).accepted() == old(self).accepted()
                &&& final(self).refusals() == old(self).refusals() + 1
                &&& final(self).refused_last()
            },
            old(self).log().is_prefix_of(final(self).log()),
            Self::accepts_all() ==> written is Ok,
    ;
}

impl Sink for String {
    spec fn accepted(&self) -> Seq<char> {
        self@
    }

    spec fn log(&self) -> Seq<(Seq<char>, bool)> {
        Seq::empty()
    }

    spec fn refusals(&self) -> nat {
        0
    }

    spec fn refused_last(&self) -> bool {
        false
    }

    spec fn accepts_all() -> bool {
        true
    }

    fn put(&mut self, piece: &str) -> (written: Result<(), core::fmt::Error>) {
        self.append(piece);
        Ok(())
    }
}

impl Sink for core::fmt::Formatter<'_> {
    spec fn accepted(&self) -> Seq<char> {
        accepted_text(writes_through(*self))
    }

    spec fn log(&self) -> Seq<(Seq<char>, bool)> {
        writes_through(*self)
    }

    spec fn refusals(&self) -> nat {
        failed_writes(writes_through(*self))
    }

    spec fn refused_last(&self) -> bool {
        ends_in_failure(writes_through(*self))
    }

    spec fn accepts_all() -> bool {
        false
    }

    fn put(&mut self, piece: &str) -> (written: Result<(), core::fmt::Error>) {
        let ghost before = writes_through(*self);
        let written: Result<(), core::fmt::Error> = self.write_str(piece);
        assert(writes_through(*self).drop_last() =~= before);
        written
    }
}

/// What a sink is after writing out `text`, given what it was before.
///
/// On success every piece was accepted. Otherwise one piece was refused, it was the last one, and
/// what was accepted before it is the beginning of the text.
spec fn outcome<S: Sink>(
    before: S,
    after: S,
    text: Seq<char>,
    written: Result<(), core::fmt::Error>,
) -> bool {
    &&& before.log().is_prefix_of(after.log())
    &&& if written is Ok {
        &&& after.accepted() == before.accepted() + text
        &&& after.refusals() == before.refusals()
    } else {
        &&& begun(before.accepted(), after.accepted(), text)
        &&& after.refusals() == before.refusals() + 1
        &&& after.refused_last()
    }
}

broadcast proof fn lemma_prefix_of_prefix<A>(a: Seq<A>, b: Seq<A>, c: Seq<A>)
    requires
        #[trigger] a.is_prefix_of(b),
        #[trigger] b.is_prefix_of(c),
    ensures
        a.is_prefix_of(c),
{
    assert forall|i: int| 0 <= i < a.len() implies a[i] == #[trigger] c.subrange(
        0,
        a.len() as int,
    )[i] by {
        assert(a[i] == b.subrange(0, a.len() as int)[i]);
        assert(b[i] == c.subrange(0, b.len() as int)[i]);
    }
}

proof fn lemma_prefix_of_sum(a: Seq<char>, b: Seq<char>)
    ensures
        a.is_prefix_of(a + b),
{
    assert(a =~= (a + b).subrange(0, a.len() as int));
}

proof fn lemma_prefix_within(head: Seq<char>, part: Seq<char>, whole: Seq<char>, tail: Seq<char>)
    requires
        part.is_prefix_of(whole),
    ensures
        (head + part).is_prefix_of(head + whole + tail),
{
    assert forall|i: int| 0 <= i < part.len() implies part[i] == whole[i] by {
        assert(part[i] == whole.subrange(0, part.len() as int)[i]);
    }
    assert(head + part =~= (head + whole + tail).subrange(0, (head + part).len() as int));
}

/// Appends `value` in decimal.
fn push_decimal(out: &mut String, value: usize)
    ensures
        final(out)@ == old(out)@ + decimal(value as nat),
    decreases value,
{
    if value >= 10 {
        push_decimal(out, value / 10);
    }
    out.append(digit_str((value % 10) as u8));
    assert(out@ =~= old(out)@ + decimal(value as nat));
}

/// Writes `value` in decimal.
fn put_decimal<S: Sink>(f: &mut S, value: usize) -> (written: Result<(), core::fmt::Error>)
    ensures
        outcome(*old(f), *final(f), decimal(value as nat), written),
        S::accepts_all() ==> written is Ok,
{
    let mut text: String = String::new();
    push_decimal(&mut text, value);
    proof {
        assert(text@ =~= decimal(value as nat));
        lemma_prefix_of_sum(f.accepted(), text@);
    }
    f.put(text.as_str())
}

/// Writes `byte` as `0x` and two hexadecimal digits.
fn put_byte<S: Sink>(f: &mut S, byte: u8) -> (written: Result<(), core::fmt::Error>)
    ensures
        outcome(*old(f), *final(f), byte_text(byte), written),
        S::accepts_all() ==> written is Ok,
{
    broadcast use lemma_prefix_of_prefix;

    let ghost goal = f.accepted() + byte_text(byte);
    let high: &'static str = digit_str(byte / 16);
    let low: &'static str = digit_str(byte % 16);
    proof {
        assert(goal =~= f.accepted() + "0x"@ + high@ + low@);
        lemma_prefix_of_sum(f.accepted(), byte_text(byte));
        lemma_prefix_of_sum(f.accepted() + "0x"@, high@ + low@);
        lemma_prefix_of_sum(f.accepted() + "0x"@ + high@, low@);
        assert(f.accepted() + "0x"@ + (high@ + low@) =~= goal);
    }
    f.put("0x")?;
    f.put(high)?;
    f.put(low)
}

/// Returns what follows number `current` of a list whose last number is `last`.
fn comma_or_close(current: usize, last: usize) -> (text: &'static str)
    ensures
        text@ == if current == last {
            "]"@
        } else {
            ", "@
        },
{
    if current == last {
        "]"
    } else {
        ", "
    }
}

proof fn lemma_with_commas_step(texts: Seq<Seq<char>>, index: int)
    requires
        0 <= index < texts.len(),
    ensures
        with_commas(texts.take(index + 1)) == with_commas(texts.take(index)) + texts[index] + ", "@,
        index + 1 == texts.len() ==> joined(texts) == with_commas(texts.take(index)) + texts[index],
{
    assert(texts.take(index + 1).drop_last() =~= texts.take(index));
    if index + 1 == texts.len() {
        assert(texts.drop_last() =~= texts.take(index));
    }
}

/// What stands before and behind a text of a list is the beginning of the whole list.
proof fn lemma_joined_begins(texts: Seq<Seq<char>>, index: int)
    requires
        0 <= index < texts.len(),
    ensures
        with_commas(texts.take(index)).is_prefix_of(joined(texts)),
        (with_commas(texts.take(index)) + texts[index]).is_prefix_of(joined(texts)),
    decreases texts.len() - index,
{
    broadcast use lemma_prefix_of_prefix;

    let part = with_commas(texts.take(index)) + texts[index];
    lemma_with_commas_step(texts, index);
    lemma_prefix_of_sum(with_commas(texts.take(index)), texts[index]);
    if index + 1 < texts.len() {
        lemma_joined_begins(texts, index + 1);
        lemma_prefix_of_sum(part, ", "@);
    } else {
        assert(part =~= part.subrange(0, part.len() as int));
    }
}

proof fn lemma_joined_step(texts: Seq<Seq<char>>, index: int)
    requires
        0 <= index < texts.len(),
    ensures
        joined(texts.take(index + 1)) == if index == 0 {
            texts[0]
        } else {
            joined(texts.take(index)) + ", "@ + texts[index]
        },
        joined(texts.take(index)).is_prefix_of(joined(texts)),
        index > 0 ==> (joined(texts.take(index)) + ", "@).is_prefix_of(joined(texts)),
        joined(texts.take(index + 1)).is_prefix_of(joined(texts)),
{
    assert(texts.take(index + 1).drop_last() =~= texts.take(index));
    lemma_joined_begins(texts, index);
    if index == 0 {
        assert(joined(texts.take(1)) =~= texts[0]);
        assert(joined(texts.take(0)) =~= joined(texts).subrange(0, 0));
    } else {
        lemma_joined_begins(texts, index - 1);
        assert(texts.take(index).drop_last() =~= texts.take(index - 1));
    }
}

/// The first lines are the beginning of all lines.
proof fn lemma_lines_begin(elements: Seq<Seq<u8>>, count: int)
    requires
        0 <= count <= elements.len(),
    ensures
        element_lines(elements.take(count)).is_prefix_of(element_lines(elements)),
    decreases elements.len() - count,
{
    broadcast use lemma_prefix_of_prefix;

    let lines = element_lines(elements.take(count));
    if count < elements.len() {
        let line = "        "@ + element_text(elements[count]) + ",\n"@;
        lemma_lines_begin(elements, count + 1);
        assert(elements.take(count + 1).drop_last() =~= elements.take(count));
        assert(element_lines(elements.take(count + 1)) =~= lines + line);
        lemma_prefix_of_sum(lines, line);
    } else {
        assert(elements.take(count) =~= elements);
        assert(lines =~= lines.subrange(0, lines.len() as int));
    }
}

/// Writes the bytes of an element as a list in square brackets.
fn put_element<S: Sink>(f: &mut S, element: &[u8]) -> (written: Result<(), core::fmt::Error>)
    ensures
        outcome(*old(f), *final(f), element_text(element@), written),
        S::accepts_all() ==> written is Ok,
{
    broadcast use lemma_prefix_of_prefix;

    let ghost before = f.accepted();
    let ghost texts = byte_texts(element@);
    let ghost goal = before + element_text(element@);
    proof {
        lemma_prefix_of_sum(before, element_text(element@));
    }
    match element.len().checked_sub(1) {
        Some(last_byte) => {
            f.put("[")?;
            let mut j: usize = 0;
            assert(texts.take(0) =~= Seq::empty());
            assert(f.accepted() =~= before + "["@ + with_commas(texts.take(0)));
            assert(goal =~= before + "["@ + joined(texts) + "]"@);
            while j < element.len()
                invariant
                    texts == byte_texts(element@),
                    before == old(f).accepted(),
                    goal == before + element_text(element@),
                    goal == before + "["@ + joined(texts) + "]"@,
                    last_byte + 1 == element@.len(),
                    j <= element@.len(),
                    f.refusals() == old(f).refusals(),
                    old(f).log().is_prefix_of(f.log()),
                    j < element@.len() ==> f.accepted() == before + "["@ + with_commas(
                        texts.take(j as int),
                    ),
                    j == element@.len() ==> f.accepted() == goal,
                decreases element@.len() - j,
            {
                broadcast use lemma_prefix_of_prefix;

                let ghost done = with_commas(texts.take(j as int));
                proof {
                    lemma_with_commas_step(texts, j as int);
                    lemma_joined_begins(texts, j as int);
                    lemma_prefix_within(before + "["@, done + texts[j as int], joined(texts), "]"@);
                    assert(f.accepted() + texts[j as int] =~= before + "["@ + (done
                        + texts[j as int]));
                }
                put_byte(f, element[j])?;
                f.put(comma_or_close(j, last_byte))?;
                j = j + 1;
                proof {
                    if j == element@.len() {
                        assert(f.accepted() =~= goal);
                    } else {
                        assert(f.accepted() =~= before + "["@ + with_commas(texts.take(j as int)));
                    }
                }
            }
        },
        None => {
            proof {
                reveal_strlit("[]");
                reveal_strlit("[");
                reveal_strlit("]");
                assert(before + "[]"@ =~= goal);
            }
            f.put("[]")?;
        },
    }
    Ok(())
}

/// Writes the line of an element.
fn put_line<S: Sink>(f: &mut S, element: &[u8]) -> (written: Result<(), core::fmt::Error>)
    ensures
        outcome(*old(f), *final(f), "        "@ + element_text(element@) + ",\n"@, written),
        S::accepts_all() ==> written is Ok,
{
    broadcast use lemma_prefix_of_prefix;

    let ghost before = f.accepted();
    let ghost texts = byte_texts(element@);
    let ghost line = "        "@ + element_text(element@) + ",\n"@;
    let ghost goal = before + line;
    proof {
        reveal_strlit("        [");
        reveal_strlit("        ");
        reveal_strlit("[");
        reveal_strlit("],\n");
        reveal_strlit("]");
        reveal_strlit(",\n");
        assert("        "@ + "["@ =~= "        ["@);
        assert("]"@ + ",\n"@ =~= "],\n"@);
        assert(goal =~= before + "        ["@ + joined(texts) + "],\n"@);
        lemma_prefix_of_sum(before, line);
    }
    f.put("        [")?;
    let mut j: usize = 0;
    assert(f.accepted() =~= before + "        ["@ + joined(texts.take(0)));
    while j < element.len()
        invariant
            texts == byte_texts(element@),
            before == old(f).accepted(),
            line == "        "@ + element_text(element@) + ",\n"@,
            goal == before + line,
            goal == before + "        ["@ + joined(texts) + "],\n"@,
            j <= element@.len(),
            f.refusals() == old(f).refusals(),
            old(f).log().is_prefix_of(f.log()),
            f.accepted() == before + "        ["@ + joined(texts.take(j as int)),
        decreases element@.len() - j,
    {
        broadcast use lemma_prefix_of_prefix;

        let ghost next = joined(texts.take(j + 1));
        proof {
            lemma_joined_step(texts, j as int);
            lemma_prefix_within(
                before + "        ["@,
                joined(texts.take(j as int)),
                joined(texts),
                "],\n"@,
            );
            lemma_prefix_within(before + "        ["@, next, joined(texts), "],\n"@);
        }
        if j > 0 {
            f.put(", ")?;
        }
        assert(f.accepted() + texts[j as int] =~= before + "        ["@ + next);
        put_byte(f, element[j])?;
        j = j + 1;
    }
    proof {
        assert(texts.take(element@.len() as int) =~= texts);
        lemma_prefix_of_sum(f.accepted(), "],\n"@);
    }
    f.put("],\n")
}

/// Whether going through the elements, with their number known beforehand, stays within the buffer.
pub open spec fn debug_safe(w: &Witness) -> bool {
    ||| w.wf()
    ||| {
        &&& layout::walkable(w.content_bytes(), w.index_start())
        &&& w.index_start() <= w.content_bytes().len()
    }
}

/// Writes what stands before the elements in the text on one line.
fn put_head<S: Sink>(f: &mut S, count: usize, start: usize) -> (written: Result<
    (),
    core::fmt::Error,
>)
    ensures
        outcome(*old(f), *final(f), debug_head(count as nat, start as nat), written),
        S::accepts_all() ==> written is Ok,
{
    broadcast use lemma_prefix_of_prefix;

    proof {
        let before = f.accepted();
        reveal_strlit("Witness: { ");
        reveal_strlit("indices: ");
        reveal_strlit("Witness: { indices: ");
        reveal_strlit(", ");
        reveal_strlit("indices_start: ");
        reveal_strlit(", indices_start: ");
        reveal_strlit("witnesses: [");
        reveal_strlit(", witnesses: [");
        assert("Witness: { "@ + "indices: "@ =~= "Witness: { indices: "@);
        assert(", "@ + "indices_start: "@ =~= ", indices_start: "@);
        assert(", "@ + "witnesses: ["@ =~= ", witnesses: ["@);
        let part1 = before + "Witness: { "@;
        let part2 = part1 + "indices: "@;
        let part3 = part2 + decimal(count as nat);
        let part4 = part3 + ", "@;
        let part5 = part4 + "indices_start: "@;
        let part6 = part5 + decimal(start as nat);
        let part7 = part6 + ", "@;
        assert(part7 + "witnesses: ["@ =~= before + debug_head(count as nat, start as nat));
        lemma_prefix_of_sum(before, "Witness: { "@);
        lemma_prefix_of_sum(part1, "indices: "@);
        lemma_prefix_of_sum(part2, decimal(count as nat));
        lemma_prefix_of_sum(part3, ", "@);
        lemma_prefix_of_sum(part4, "indices_start: "@);
        lemma_prefix_of_sum(part5, decimal(start as nat));
        lemma_prefix_of_sum(part6, ", "@);
        lemma_prefix_of_sum(part7, "witnesses: ["@);
    }
    f.put("Witness: { ")?;
    f.put("indices: ")?;
    put_decimal(f, count)?;
    f.put(", ")?;
    f.put("indices_start: ")?;
    put_decimal(f, start)?;
    f.put(", ")?;
    f.put("witnesses: [")
}

/// Writes what stands before the elements in the text on several lines.
fn put_pretty_head<S: Sink>(f: &mut S, count: usize, start: usize) -> (written: Result<
    (),
    core::fmt::Error,
>)
    ensures
        outcome(*old(f), *final(f), pretty_head(count as nat, start as nat), written),
        S::accepts_all() ==> written is Ok,
{
    broadcast use lemma_prefix_of_prefix;

    proof {
        let before = f.accepted();
        reveal_strlit("Witness: {\n");
        reveal_strlit("    indices: ");
        reveal_strlit("Witness: {\n    indices: ");
        reveal_strlit(",\n");
        reveal_strlit("    indices_start: ");
        reveal_strlit(",\n    indices_start: ");
        reveal_strlit("    witnesses: [\n");
        reveal_strlit(",\n    witnesses: [\n");
        assert("Witness: {\n"@ + "    indices: "@ =~= "Witness: {\n    indices: "@);
        assert(",\n"@ + "    indices_start: "@ =~= ",\n    indices_start: "@);
        assert(",\n"@ + "    witnesses: [\n"@ =~= ",\n    witnesses: [\n"@);
        let part1 = before + "Witness: {\n"@;
        let part2 = part1 + "    indices: "@;
        let part3 = part2 + decimal(count as nat);
        let part4 = part3 + ",\n"@;
        let part5 = part4 + "    indices_start: "@;
        let part6 = part5 + decimal(start as nat);
        let part7 = part6 + ",\n"@;
        assert(part7 + "    witnesses: [\n"@ =~= before + pretty_head(count as nat, start as nat));
        lemma_prefix_of_sum(before, "Witness: {\n"@);
        lemma_prefix_of_sum(part1, "    indices: "@);
        lemma_prefix_of_sum(part2, decimal(count as nat));
        lemma_prefix_of_sum(part3, ",\n"@);
        lemma_prefix_of_sum(part4, "    indices_start: "@);
        lemma_prefix_of_sum(part5, decimal(start as nat));
        lemma_prefix_of_sum(part6, ",\n"@);
        lemma_prefix_of_sum(part7, "    witnesses: [\n"@);
    }
    f.put("Witness: {\n")?;
    f.put("    indices: ")?;
    put_decimal(f, count)?;
    f.put(",\n")?;
    f.put("    indices_start: ")?;
    put_decimal(f, start)?;
    f.put(",\n")?;
    f.put("    witnesses: [\n")
}

/// Writes the text of a witness on one line.
fn fmt_debug<S: Sink>(w: &Witness, f: &mut S) -> (written: Result<(), core::fmt::Error>)
    requires
        debug_safe(w),
    ensures
        outcome(*old(f), *final(f), w.text(false), written),
        S::accepts_all() ==> written is Ok,
{
    broadcast use lemma_prefix_of_prefix;

    let ghost before = f.accepted();
    let ghost elements = w.indexed_elements();
    let ghost texts = element_texts(elements);
    let ghost head = before + debug_head(w.element_count(), w.index_start() as nat);
    let ghost goal = before + w.text(false);
    proof {
        w.lemma_walk();
        assert(goal =~= head + joined(texts) + "] }"@);
        lemma_prefix_of_sum(head, joined(texts) + "] }"@);
        assert(head + (joined(texts) + "] }"@) =~= goal);
        reveal_strlit("]");
        reveal_strlit(" }");
        reveal_strlit("] }");
        assert("]"@ + " }"@ =~= "] }"@);
    }
    put_head(f, w.len(), w.indices_start())?;
    let mut instructions: Iter = w.iter();
    match instructions.len().checked_sub(1) {
        Some(last_instruction) => {
            let mut i: usize = 0;
            assert(texts.take(0) =~= Seq::empty());
            assert(f.accepted() =~= head + with_commas(texts.take(0)));
            while i <= last_instruction
                invariant
                    texts == element_texts(elements),
                    elements == w.indexed_elements(),
                    before == old(f).accepted(),
                    goal == before + w.text(false),
                    goal == head + joined(texts) + "] }"@,
                    before.len() <= head.len(),
                    0 <= w.index_start(),
                    layout::walkable(w.content_bytes(), w.index_start()),
                    instructions.content_bytes() == w.content_bytes(),
                    instructions.index_start() == w.index_start(),
                    instructions.position() == i,
                    last_instruction + 1 == elements.len(),
                    i <= elements.len() <= usize::MAX,
                    f.refusals() == old(f).refusals(),
                    old(f).log().is_prefix_of(f.log()),
                    i < elements.len() ==> f.accepted() == head + with_commas(texts.take(i as int)),
                    i == elements.len() ==> f.accepted() == head + joined(texts) + "]"@,
                decreases elements.len() - i,
            {
                broadcast use lemma_prefix_of_prefix;

                let ghost done = with_commas(texts.take(i as int));
                proof {
                    layout::lemma_slots(w.content_bytes(), w.index_start(), i as int);
                    lemma_with_commas_step(texts, i as int);
                    lemma_joined_begins(texts, i as int);
                    lemma_prefix_within(head, done + texts[i as int], joined(texts), "] }"@);
                    assert(f.accepted() + texts[i as int] =~= head + (done + texts[i as int]));
                }
                let instruction: &[u8] = instructions.next().unwrap();
                put_element(f, instruction)?;
                f.put(comma_or_close(i, last_instruction))?;
                i = i + 1;
                proof {
                    if i == elements.len() {
                        assert(f.accepted() =~= head + joined(texts) + "]"@);
                    } else {
                        assert(f.accepted() =~= head + with_commas(texts.take(i as int)));
                    }
                }
            }
        },
        None => {
            f.put("]")?;
            assert(f.accepted() =~= head + joined(texts) + "]"@);
        },
    }
    proof {
        assert(f.accepted() + " }"@ =~= goal);
        lemma_prefix_of_sum(f.accepted(), " }"@);
    }
    f.put(" }")
}

/// Writes the text of a witness on several lines.
fn fmt_debug_pretty<S: Sink>(w: &Witness, f: &mut S) -> (written: Result<(), core::fmt::Error>)
    requires
        w.walk_safe(),
    ensures
        outcome(*old(f), *final(f), w.text(true), written),
        S::accepts_all() ==> written is Ok,
{
    broadcast use lemma_prefix_of_prefix;

    let ghost before = f.accepted();
    let ghost elements = w.indexed_elements();
    let ghost head = before + pretty_head(w.element_count(), w.index_start() as nat);
    let ghost goal = before + w.text(true);
    let ghost tail = "    ],\n}\n"@;
    proof {
        w.lemma_walk();
        assert(goal =~= head + element_lines(elements) + tail);
        lemma_prefix_of_sum(head, element_lines(elements) + tail);
        assert(head + (element_lines(elements) + tail) =~= goal);
    }
    put_pretty_head(f, w.len(), w.indices_start())?;
    let mut instructions: Iter = w.iter();
    let mut done: bool = false;
    assert(elements.take(0) =~= Seq::empty());
    assert(f.accepted() =~= head + element_lines(elements.take(0)));
    while !done
        invariant
            elements == w.indexed_elements(),
            before == old(f).accepted(),
            goal == before + w.text(true),
            goal == head + element_lines(elements) + tail,
            before.len() <= head.len(),
            0 <= w.index_start(),
            layout::walkable(w.content_bytes(), w.index_start()),
            instructions.content_bytes() == w.content_bytes(),
            instructions.index_start() == w.index_start(),
            0 <= instructions.position() <= elements.len(),
            f.refusals() == old(f).refusals(),
            old(f).log().is_prefix_of(f.log()),
            f.accepted() == head + element_lines(elements.take(instructions.position())),
            done ==> instructions.position() == elements.len(),
        decreases elements.len() - instructions.position(), !done as int,
    {
        broadcast use lemma_prefix_of_prefix;

        let ghost position = instructions.position();
        proof {
            layout::lemma_slots(w.content_bytes(), w.index_start(), position);
        }
        match instructions.next() {
            Some(instruction) => {
                proof {
                    let next = element_lines(elements.take(position + 1));
                    let line = "        "@ + element_text(instruction@) + ",\n"@;
                    assert(elements.take(position + 1).drop_last() =~= elements.take(position));
                    assert(f.accepted() + line =~= head + next);
                    lemma_lines_begin(elements, position + 1);
                    lemma_prefix_within(head, next, element_lines(elements), tail);
                }
                put_line(f, instruction)?;
            },
            None => done = true,
        }
    }
    proof {
        let lines = f.accepted();
        assert(elements.take(elements.len() as int) =~= elements);
        reveal_strlit("    ],\n");
        reveal_strlit("}\n");
        reveal_strlit("    ],\n}\n");
        assert("    ],\n"@ + "}\n"@ =~= tail);
        assert(lines + "    ],\n"@ + "}\n"@ =~= goal);
        lemma_prefix_of_sum(lines + "    ],\n"@, "}\n"@);
        lemma_prefix_of_sum(lines, "    ],\n"@);
    }
    f.put("    ],\n")?;
    f.put("}\n")
}

impl Witness {
    /// Whether the witness can be written out as text: on several lines if `alternate` is set, else
    /// on one line.
    pub open spec fn text_safe(&self, alternate: bool) -> bool {
        if alternate {
            self.walk_safe()
        } else {
            debug_safe(self)
        }
    }

    /// The text of the witness: on several lines if `alternate` is set, else on one line.
    pub open spec fn text(&self, alternate: bool) -> Seq<char> {
        if alternate {
            pretty_text(self.element_count(), self.index_start() as nat, self.indexed_elements())
        } else {
            debug_text(self.element_count(), self.index_start() as nat, self.indexed_elements())
        }
    }

    /// Returns the text of the witness: on several lines if `alternate` is set, else on one line.
    pub fn to_debug_string(&self, alternate: bool) -> (text: String)
        requires
            self.text_safe(alternate),
        ensures
            text@ == self.text(alternate),
            self.wf() ==> text@ == if alternate {
                pretty_text(self@.len(), self.index_start() as nat, self@)
            } else {
                debug_text(self@.len(), self.index_start() as nat, self@)
            },
    {
        let mut text: String = String::new();
        let written: Result<(), core::fmt::Error> = if alternate {
            fmt_debug_pretty(self, &mut text)
        } else {
            fmt_debug(self, &mut text)
        };
        written.unwrap();
        proof {
            if self.wf() {
                self.lemma_wf();
            }
        }
        text
    }

    /// Returns whether the witness can be written out as text: on several lines if `alternate` is
    /// set, else on one line.
    ///
    /// A well-formed witness always can.
    pub fn is_text_safe(&self, alternate: bool) -> (safe: bool)
        ensures
            safe == self.text_safe(alternate),
    {
        proof {
            if self.wf() {
                self.lemma_wf();
            }
        }
        self.is_walkable() && (alternate || self.indices_start() <= self.content_len())
    }
}

/// `core::fmt::Formatter`: where a formatted text goes.
#[verifier::external_type_specification]
#[verifier::external_body]
pub struct ExFormatter<'a>(core::fmt::Formatter<'a>);

/// `core::fmt::Error`: that a text could not be written.
#[verifier::external_type_specification]
#[verifier::external_body]
pub struct ExFormatError(core::fmt::Error);

/// Whether the `#` flag was given to a formatter.
pub uninterp spec fn alternate_flag(f: core::fmt::Formatter<'_>) -> bool;

/// The writes that were made through a formatter, in their order: the text of each, and whether it
/// succeeded.
pub uninterp spec fn writes_through(f: core::fmt::Formatter<'_>) -> Seq<(Seq<char>, bool)>;

/// `core::fmt::Formatter::alternate`: whether the `#` flag was given.
pub assume_specification<'a>[ core::fmt::Formatter::<'a>::alternate ](
    f: &core::fmt::Formatter<'a>,
) -> (alternate: bool)
    ensures
        alternate == alternate_flag(*f),
;

/// `core::fmt::Formatter::write_str`: makes one write to the writer behind the formatter. It
/// succeeds only if the whole text was written. Whether it does is for the writer to decide, and of
/// what the writer keeps of a text that failed nothing is said.
pub assume_specification<'a>[ core::fmt::Formatter::<'a>::write_str ](
    f: &mut core::fmt::Formatter<'a>,
    data: &str,
) -> (written: Result<(), core::fmt::Error>)
    ensures
        writes_through(*final(f)) == writes_through(*old(f)).push((data@, written is Ok)),
;

/// `core::fmt::Error`: the value of that type.
#[verifier::external_body]
fn format_error() -> (error: core::fmt::Error) {
    core::fmt::Error
}

/// Writes the text of the witness, piece by piece: on several lines if the `#` flag was given, else
/// on one line. The first write that fails is the last one, and its error is returned. A witness
/// that cannot be read is an error before the first write.
impl core::fmt::Debug for Witness {
    fn fmt(&self, f: &mut core::fmt::Formatter<'_>) -> (written: Result<(), core::fmt::Error>)
        ensures
            !self.text_safe(alternate_flag(*old(f))) ==> {
                &&& written is Err
                &&& writes_through(*final(f)) == writes_through(*old(f))
            },
            self.text_safe(alternate_flag(*old(f))) ==> written_out(
                writes_through(*old(f)),
                writes_through(*final(f)),
                self.text(alternate_flag(*old(f))),
                written is Ok,
            ),
            self.text_safe(alternate_flag(*old(f))) ==> (written is Ok <==> failed_writes(
                writes_through(*final(f)),
            ) == failed_writes(writes_through(*old(f)))),
    {
        let alternate: bool = f.alternate();
        if !self.is_text_safe(alternate) {
            Err(format_error())
        } else if alternate {
            fmt_debug_pretty(self, f)
        } else {
            fmt_debug(self, f)
        }
    }
}

/// The accepted text of writes is that of the first ones and then that of the others, and the failed
/// ones add up. A single write that succeeded has its own text, and one that failed has none.
pub proof fn lemma_accepted_text(
    first: Seq<(Seq<char>, bool)>,
    second: Seq<(Seq<char>, bool)>,
)
    ensures
        accepted_text(first + second) == accepted_text(first) + accepted_text(second),
        failed_writes(first + second) == failed_writes(first) + failed_writes(second),
        second.len() == 0 ==> accepted_text(second) == Seq::<char>::empty() && failed_writes(second)
            == 0,
        second.len() == 1 && second[0].1 ==> accepted_text(second) == second[0].0 && failed_writes(
            second,
        ) == 0,
        second.len() == 1 && !second[0].1 ==> accepted_text(second) == Seq::<char>::empty()
            && failed_writes(second) == 1,
        ends_in_failure(second) <==> second.len() > 0 && !second[second.len() - 1].1,
    decreases second.len(),
{
    if second.len() == 0 {
        assert(first + second =~= first);
        assert(accepted_text(first) + accepted_text(second) =~= accepted_text(first));
    } else {
        let init = second.drop_last();
        lemma_accepted_text(first, init);
        assert((first + second).drop_last() =~= first + init);
        assert((first + second).last() == second.last());
        assert(accepted_text(first + second) =~= accepted_text(first) + accepted_text(second));
        if second.len() == 1 {
            assert(init.len() == 0);
            assert(accepted_text(init) =~= Seq::<char>::empty());
            assert(accepted_text(second) =~= if second[0].1 {
                second[0].0
            } else {
                Seq::<char>::empty()
            });
        }
    }
}

/// Each digit of a number in decimal stands for its power of ten, the last one for ones. There are
/// as many digits as are needed, so that only zero begins with a zero.
pub proof fn lemma_decimal(value: nat)
    ensures
        ({
            let len = decimal(value).len();
            &&& len >= 1
            &&& value < vstd::arithmetic::power::pow(10, len)
            &&& value == 0 ==> len == 1
            &&& value > 0 ==> vstd::arithmetic::power::pow(10, (len - 1) as nat) <= value
            &&& forall|i: int|
                0 <= i < len ==> (#[trigger] decimal(value)[i]) as int == 0x30 + value as int
                    / vstd::arithmetic::power::pow(10, (len - 1 - i) as nat) % 10
        }),
    decreases value,
{
    reveal(vstd::arithmetic::power::pow);
    hex::lemma_digits(value as int % 10, 0);
    if value < 10 {
        vstd::arithmetic::power::lemma_pow0(10);
        vstd::arithmetic::power::lemma_pow1(10);
        assert(value as int / 1 % 10 == value);
    } else {
        let rest = value / 10;
        lemma_decimal(rest);
        let len = decimal(value).len();
        let text = decimal(rest);
        vstd::arithmetic::power::lemma_pow0(10);
        vstd::arithmetic::power::lemma_pow_positive(10, (len - 2) as nat);
        assert(vstd::arithmetic::power::pow(10, len) == 10 * vstd::arithmetic::power::pow(
            10,
            (len - 1) as nat,
        ));
        assert(vstd::arithmetic::power::pow(10, (len - 1) as nat) == 10
            * vstd::arithmetic::power::pow(10, (len - 2) as nat));
        assert forall|i: int| 0 <= i < len implies (#[trigger] decimal(value)[i]) as int == 0x30
            + value as int / vstd::arithmetic::power::pow(10, (len - 1 - i) as nat) % 10 by {
            if i == len - 1 {
                assert(value as int / 1 == value);
            } else {
                let low = (len - 2 - i) as nat;
                assert(decimal(value)[i] == text[i]);
                vstd::arithmetic::power::lemma_pow_positive(10, low);
                vstd::arithmetic::div_mod::lemma_div_denominator(
                    value as int,
                    10,
                    vstd::arithmetic::power::pow(10, low),
                );
                assert(vstd::arithmetic::power::pow(10, low + 1) == 10
                    * vstd::arithmetic::power::pow(10, low));
            }
        }
    }
}

/// Different numbers have different texts.
pub proof fn lemma_decimal_is_unambiguous(a: nat, b: nat)
    requires
        decimal(a) == decimal(b),
    ensures
        a == b,
    decreases a,
{
    lemma_decimal(a);
    lemma_decimal(b);
    vstd::arithmetic::power::lemma_pow0(10);
    let last = decimal(a).len() - 1;
    assert(decimal(a)[last] as int == 0x30 + a % 10);
    assert(decimal(b)[last] as int == 0x30 + b % 10);
    if a >= 10 {
        assert(b >= 10) by {
            if b < 10 {
                assert(decimal(b).len() == 1);
                assert(decimal(a).len() == decimal(a / 10).len() + 1);
                lemma_decimal(a / 10);
            }
        }
        assert(decimal(a).drop_last() =~= decimal(a / 10));
        assert(decimal(b).drop_last() =~= decimal(b / 10));
        lemma_decimal_is_unambiguous(a / 10, b / 10);
    } else if b >= 10 {
        lemma_decimal(b / 10);
    }
}

/// A byte is written as `0x` and two digits, the high half first.
pub proof fn lemma_byte_text(byte: u8)
    ensures
        byte_text(byte).len() == 4,
        byte_text(byte)[0] == '0',
        byte_text(byte)[1] == 'x',
        byte_text(byte)[2] as int == if byte < 0xa0 {
            0x30 + byte as int / 16
        } else {
            0x61 + byte as int / 16 - 10
        },
        byte_text(byte)[3] as int == if byte % 16 < 10 {
            0x30 + byte as int % 16
        } else {
            0x61 + byte as int % 16 - 10
        },
{
    reveal_strlit("0x");
    hex::lemma_digits(byte as int / 16, 0);
    hex::lemma_digits(byte as int % 16, 0);
}

/// Two lists of texts joined with a comma and a space are the joined list of both. A single text is
/// joined as it is, and no text gives nothing.
pub proof fn lemma_joined(first: Seq<Seq<char>>, second: Seq<Seq<char>>)
    ensures
        first.len() > 0 && second.len() > 0 ==> joined(first + second) == joined(first) + ", "@
            + joined(second),
        second.len() == 1 ==> joined(second) == second[0],
        second.len() == 0 ==> joined(second) == Seq::<char>::empty(),
    decreases second.len(),
{
    if second.len() == 1 {
        assert(with_commas(second.drop_last()) =~= Seq::<char>::empty());
        assert(joined(second) =~= second[0]);
    }
    if first.len() > 0 && second.len() > 0 {
        let all = first + second;
        assert(all.last() == second.last());
        if second.len() == 1 {
            assert(all.drop_last() =~= first);
            assert(joined(all) =~= joined(first) + ", "@ + joined(second));
        } else {
            let init = second.drop_last();
            lemma_joined(first, init);
            assert(all.drop_last() =~= first + init);
            assert(with_commas(first + init) =~= joined(first + init) + ", "@);
            assert(with_commas(init) =~= joined(init) + ", "@);
            assert(joined(all) =~= joined(first) + ", "@ + joined(second));
        }
    }
}

/// The text of an element begins and ends with a bracket. Between them stand its bytes, six characters
/// apart, with a comma and a space between each two.
pub proof fn lemma_element_text(element: Seq<u8>, index: int)
    requires
        0 <= index < element.len(),
    ensures
        ({
            let text = element_text(element);
            &&& text.len() == 6 * element.len()
            &&& text[0] == '['
            &&& text.subrange(6 * index + 1, 6 * index + 5) == byte_text(element[index])
            &&& text[text.len() - 1] == ']'
            &&& index + 1 < element.len() ==> text[6 * index + 5] == ',' && text[6 * index + 6]
                == ' '
        }),
        element_text(Seq::empty()) == "[]"@,
{
    let texts = byte_texts(element);
    let text = element_text(element);
    reveal_strlit("[");
    reveal_strlit("]");
    reveal_strlit("[]");
    reveal_strlit(", ");
    assert(element_text(Seq::empty()) =~= "[]"@);
    let init = texts.drop_last();
    assert forall|i: int| 0 <= i < texts.len() implies #[trigger] texts[i].len() == 4 by {
        lemma_byte_text(element[i]);
    }
    lemma_blocks(init, 0);
    assert(text.len() == 6 * element.len());
    if index + 1 < element.len() {
        lemma_blocks(init, index);
        let block = texts[index] + ", "@;
        assert(init[index] == texts[index]);
        let around = text.subrange(6 * index + 1, 6 * index + 7);
        assert(around =~= with_commas(init).subrange(6 * index, 6 * index + 6));
        assert(around[4] == ',' && around[5] == ' ');
        assert(text.subrange(6 * index + 1, 6 * index + 5) =~= around.take(4));
        assert(block.take(4) =~= texts[index]);
    } else {
        assert(text.subrange(6 * index + 1, 6 * index + 5) =~= texts[index]);
    }
}

/// Texts of four characters with their commas are blocks of six characters.
proof fn lemma_blocks(texts: Seq<Seq<char>>, index: int)
    requires
        forall|i: int| 0 <= i < texts.len() ==> #[trigger] texts[i].len() == 4,
    ensures
        with_commas(texts).len() == 6 * texts.len(),
        0 <= index < texts.len() ==> with_commas(texts).subrange(6 * index, 6 * index + 6)
            == texts[index] + ", "@,
    decreases texts.len(),
{
    reveal_strlit(", ");
    if texts.len() > 0 {
        let init = texts.drop_last();
        assert forall|i: int| 0 <= i < init.len() implies #[trigger] init[i].len() == 4 by {
            assert(texts[i].len() == 4);
        }
        lemma_blocks(init, index);
        assert(texts[texts.len() - 1].len() == 4);
        if 0 <= index < init.len() {
            assert(with_commas(texts).subrange(6 * index, 6 * index + 6) =~= with_commas(
                init,
            ).subrange(6 * index, 6 * index + 6));
        } else if index == init.len() {
            assert(with_commas(texts).subrange(6 * index, 6 * index + 6) =~= texts[index] + ", "@);
        }
    }
}

/// The text on one line of a witness without elements, and how it grows: one more element goes in
/// front of the closing bracket, behind a comma and a space unless it is the first.
pub proof fn lemma_debug_text(count: nat, start: nat, elements: Seq<Seq<u8>>, new: Seq<u8>)
    ensures
        debug_text(count, start, Seq::empty()) == "Witness: { indices: "@ + decimal(count)
            + ", indices_start: "@ + decimal(start) + ", witnesses: [] }"@,
        ({
            let text = debug_text(count, start, elements);
            &&& text.skip(text.len() - 3) == "] }"@
            &&& debug_text(count, start, elements.push(new)) == text.take(text.len() - 3) + (
            if elements.len() == 0 {
                Seq::<char>::empty()
            } else {
                ", "@
            }) + element_text(new) + "] }"@
        }),
{
    reveal_strlit(", witnesses: [");
    reveal_strlit("] }");
    reveal_strlit(", witnesses: [] }");
    assert(", witnesses: ["@ + "] }"@ =~= ", witnesses: [] }"@);
    assert(debug_text(count, start, Seq::empty()) =~= "Witness: { indices: "@ + decimal(count)
        + ", indices_start: "@ + decimal(start) + ", witnesses: [] }"@);
    let text = debug_text(count, start, elements);
    let texts = element_texts(elements);
    let one = seq![element_text(new)];
    assert(element_texts(elements.push(new)) =~= texts + one);
    lemma_joined(texts, one);
    assert(text.skip(text.len() - 3) =~= "] }"@);
    assert(text.take(text.len() - 3) =~= debug_head(count, start) + joined(texts));
    if elements.len() == 0 {
        assert(texts + one =~= one);
    }
    assert(debug_text(count, start, elements.push(new)) =~= text.take(text.len() - 3) + (
    if elements.len() == 0 {
        Seq::<char>::empty()
    } else {
        ", "@
    }) + element_text(new) + "] }"@);
}

/// The text on several lines of a witness without elements, and how it grows: one more element is a
/// line of its own behind the others.
pub proof fn lemma_pretty_text(count: nat, start: nat, elements: Seq<Seq<u8>>, new: Seq<u8>)
    ensures
        pretty_text(count, start, Seq::empty()) == "Witness: {\n    indices: "@ + decimal(count)
            + ",\n    indices_start: "@ + decimal(start) + ",\n    witnesses: [\n    ],\n}\n"@,
        ({
            let text = pretty_text(count, start, elements);
            &&& text.skip(text.len() - 9) == "    ],\n}\n"@
            &&& pretty_text(count, start, elements.push(new)) == text.take(text.len() - 9)
                + "        "@ + element_text(new) + ",\n    ],\n}\n"@
        }),
{
    reveal_strlit(",\n");
    reveal_strlit("    ],\n}\n");
    reveal_strlit(",\n    ],\n}\n");
    reveal_strlit(",\n    witnesses: [\n");
    reveal_strlit(",\n    witnesses: [\n    ],\n}\n");
    assert(",\n    witnesses: [\n"@ + "    ],\n}\n"@
        =~= ",\n    witnesses: [\n    ],\n}\n"@);
    assert(",\n"@ + "    ],\n}\n"@ =~= ",\n    ],\n}\n"@);
    assert(pretty_text(count, start, Seq::empty()) =~= "Witness: {\n    indices: "@ + decimal(count)
        + ",\n    indices_start: "@ + decimal(start) + ",\n    witnesses: [\n    ],\n}\n"@);
    let text = pretty_text(count, start, elements);
    assert(elements.push(new).drop_last() =~= elements);
    assert(text.skip(text.len() - 9) =~= "    ],\n}\n"@);
    assert(text.take(text.len() - 9) =~= pretty_head(count, start) + element_lines(elements));
    assert(pretty_text(count, start, elements.push(new)) =~= text.take(text.len() - 9)
        + "        "@ + element_text(new) + ",\n    ],\n}\n"@);
}

/// The text of a witness tells its counter, where its index area begins, and the elements that this
/// points to. It can be written if these can be read, and for the text on one line the index area
/// has to begin in the buffer. A well-formed witness always has both texts.
pub proof fn lemma_witness_text(witness: &Witness)
    ensures
        witness.text(false) == debug_text(
            witness.element_count(),
            witness.index_start() as nat,
            witness.indexed_elements(),
        ),
        witness.text(true) == pretty_text(
            witness.element_count(),
            witness.index_start() as nat,
            witness.indexed_elements(),
        ),
        witness.text_safe(true) <==> witness.walk_safe(),
        witness.text_safe(false) <==> witness.walk_safe() && witness.index_start()
            <= witness.content_bytes().len(),
        witness.wf() ==> witness.text_safe(true) && witness.text_safe(false),
{
    if witness.wf() {
        witness.lemma_wf();
    }
}

} // verus!
