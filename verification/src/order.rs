//! The order of byte strings.

use vstd::prelude::*;

verus! {

/// Whether `a` and `b` agree up to `index`, and there `a` has the smaller byte or ends.
pub open spec fn smaller_at(a: Seq<u8>, b: Seq<u8>, index: int) -> bool {
    &&& 0 <= index <= a.len()
    &&& index < b.len()
    &&& a.take(index) == b.take(index)
    &&& index == a.len() || a[index] < b[index]
}

/// Whether `a` comes before `b`.
pub open spec fn precedes(a: Seq<u8>, b: Seq<u8>) -> bool {
    exists|index: int| #[trigger] smaller_at(a, b, index)
}

/// A byte string comes before every longer one that begins with it, and of two that differ in a byte
/// the one with the smaller byte comes first, whatever follows.
pub proof fn lemma_precedes(
    common: Seq<u8>,
    small: u8,
    large: u8,
    behind_small: Seq<u8>,
    behind_large: Seq<u8>,
)
    ensures
        precedes(common, common.push(large) + behind_large),
        small < large ==> precedes(
            common.push(small) + behind_small,
            common.push(large) + behind_large,
        ),
{
    let first = common.push(small) + behind_small;
    let second = common.push(large) + behind_large;
    let index = common.len() as int;
    assert(common.take(index) =~= common);
    assert(first.take(index) =~= common);
    assert(second.take(index) =~= common);
    assert(smaller_at(common, second, index));
    if small < large {
        assert(smaller_at(first, second, index));
    }
}

/// Two byte strings are the same, or one of them comes before the other, and only one of the three
/// holds.
pub proof fn lemma_order_is_total(a: Seq<u8>, b: Seq<u8>)
    ensures
        a == b || precedes(a, b) || precedes(b, a),
        !(precedes(a, b) && precedes(b, a)),
        a == b ==> !precedes(a, b),
{
    assert(a.take(0) =~= b.take(0));
    lemma_same_or_smaller(a, b, 0);
    if precedes(a, b) {
        let index = choose|index: int| #[trigger] smaller_at(a, b, index);
        if precedes(b, a) {
            let other = choose|index: int| #[trigger] smaller_at(b, a, index);
            if index < other {
                assert(b.take(other)[index] == a.take(other)[index]);
            } else if other < index {
                assert(b.take(index)[other] == a.take(index)[other]);
            }
        }
    }
}

proof fn lemma_same_or_smaller(a: Seq<u8>, b: Seq<u8>, index: int)
    requires
        0 <= index <= a.len(),
        index <= b.len(),
        a.take(index) == b.take(index),
    ensures
        a == b || precedes(a, b) || precedes(b, a),
    decreases a.len() - index,
{
    if index == a.len() && index == b.len() {
        assert(a.take(index) =~= a);
        assert(b.take(index) =~= b);
    } else if index == a.len() || index < b.len() && a[index] < b[index] {
        assert(smaller_at(a, b, index));
    } else if index == b.len() || b[index] < a[index] {
        assert(smaller_at(b, a, index));
    } else {
        assert(a.take(index + 1) =~= a.take(index).push(a[index]));
        assert(b.take(index + 1) =~= b.take(index).push(b[index]));
        lemma_same_or_smaller(a, b, index + 1);
    }
}

/// What comes before a byte string comes before all that this one comes before.
pub proof fn lemma_order_is_transitive(a: Seq<u8>, b: Seq<u8>, c: Seq<u8>)
    requires
        precedes(a, b),
        precedes(b, c),
    ensures
        precedes(a, c),
{
    let first = choose|index: int| #[trigger] smaller_at(a, b, index);
    let second = choose|index: int| #[trigger] smaller_at(b, c, index);
    let index = if first < second {
        first
    } else {
        second
    };
    assert(a.take(index) =~= b.take(index)) by {
        assert(a.take(first).take(index) =~= a.take(index));
        assert(b.take(first).take(index) =~= b.take(index));
    }
    assert(b.take(index) =~= c.take(index)) by {
        assert(b.take(second).take(index) =~= b.take(index));
        assert(c.take(second).take(index) =~= c.take(index));
    }
    if first < second {
        assert(b.take(second)[first] == c.take(second)[first]);
    } else if second < first {
        assert(a.take(first)[second] == b.take(first)[second]);
    }
    assert(smaller_at(a, c, index));
}

/// Returns whether `a` comes before `b`.
pub(crate) fn is_before(a: &[u8], b: &[u8]) -> (before: bool)
    ensures
        before == precedes(a@, b@),
{
    let mut i: usize = 0;
    assert(a@.take(0) =~= b@.take(0));
    while i < a.len() && i < b.len() && a[i] == b[i]
        invariant
            i <= a@.len(),
            i <= b@.len(),
            a@.take(i as int) == b@.take(i as int),
        decreases a@.len() - i,
    {
        assert(a@.take(i + 1) =~= a@.take(i as int).push(a@[i as int]));
        assert(b@.take(i + 1) =~= b@.take(i as int).push(b@[i as int]));
        i = i + 1;
    }
    proof {
        lemma_order_is_total(a@, b@);
    }
    if i == b.len() {
        proof {
            if i == a.len() {
                assert(a@.take(i as int) =~= a@);
                assert(b@.take(i as int) =~= b@);
            } else {
                assert(smaller_at(b@, a@, i as int));
            }
        }
        false
    } else if i == a.len() || a[i] < b[i] {
        assert(smaller_at(a@, b@, i as int));
        true
    } else {
        assert(smaller_at(b@, a@, i as int));
        false
    }
}

} // verus!
