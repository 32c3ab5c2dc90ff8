//! The order of strings.
use crate::text::chars_of;
use std::cmp::Ordering;
use vstd::prelude::*;

verus! {

/// Whether one character comes before another.
pub open spec fn precedes(a: char, b: char) -> bool {
    (a as u32) < (b as u32)
}

/// The lexicographic order of two texts by the codes of their characters.
pub open spec fn text_order(a: Seq<char>, b: Seq<char>) -> Ordering
    decreases a.len(),
{
    if a.len() == 0 && b.len() == 0 {
        Ordering::Equal
    } else if a.len() == 0 {
        Ordering::Less
    } else if b.len() == 0 {
        Ordering::Greater
    } else if precedes(a[0], b[0]) {
        Ordering::Less
    } else if precedes(b[0], a[0]) {
        Ordering::Greater
    } else {
        text_order(a.drop_first(), b.drop_first())
    }
}

/// What is left of a text from position `i` on.
spec fn rest(t: Seq<char>, i: usize) -> Seq<char> {
    t.skip(i as int)
}

fn comes_before(a: char, b: char) -> (before: bool)
    ensures
        before == precedes(a, b),
{
    (a as u32) < (b as u32)
}

/// Compares two strings.
pub(crate) fn compare_texts(a: &str, b: &str) -> (order: Ordering)
    ensures
        order == text_order(a@, b@),
{
    let (left, right) = (chars_of(a), chars_of(b));
    let mut i: usize = 0;
    assert(rest(a@, 0) =~= a@ && rest(b@, 0) =~= b@);
    while i < left.len() && i < right.len()
        invariant
            left@ == a@,
            right@ == b@,
            i <= left@.len(),
            i <= right@.len(),
            text_order(rest(a@, i), rest(b@, i)) == text_order(a@, b@),
        decreases left@.len() - i,
    {
        if comes_before(left[i], right[i]) {
            return Ordering::Less;
        }
        if comes_before(right[i], left[i]) {
            return Ordering::Greater;
        }
        let ghost (c, d) = (rest(a@, i), rest(b@, i));
        i += 1;
        assert(c.drop_first() =~= rest(a@, i) && d.drop_first() =~= rest(b@, i));
    }
    if i < right.len() {
        Ordering::Less
    } else if i < left.len() {
        Ordering::Greater
    } else {
        Ordering::Equal
    }
}

/// Of two characters one comes before the other, unless they are the same.
proof fn lemma_same_char(a: char, b: char)
    ensures
        precedes(a, b) || precedes(b, a) || a == b,
{
}

/// Two texts are equal in the order exactly if they are the same text.
pub proof fn law_equal_in_order_iff_same(a: Seq<char>, b: Seq<char>)
    ensures
        text_order(a, b) == Ordering::Equal <==> a == b,
    decreases a.len(),
{
    if a.len() == 0 {
        assert(b.len() == 0 ==> a =~= b);
    } else if b.len() > 0 {
        law_equal_in_order_iff_same(a.drop_first(), b.drop_first());
        lemma_same_char(a[0], b[0]);
        if a.drop_first() == b.drop_first() && a[0] == b[0] {
            assert(a =~= seq![a[0]] + a.drop_first());
            assert(b =~= seq![b[0]] + b.drop_first());
        }
    }
}

/// Seen from the other text, the order is reversed.
pub proof fn law_order_is_antisymmetric(a: Seq<char>, b: Seq<char>)
    ensures
        text_order(a, b) == Ordering::Less <==> text_order(b, a) == Ordering::Greater,
    decreases a.len(),
{
    if a.len() > 0 && b.len() > 0 {
        law_order_is_antisymmetric(a.drop_first(), b.drop_first());
    }
}

/// What comes before a text comes before all that come after it.
pub proof fn law_order_is_transitive(a: Seq<char>, b: Seq<char>, c: Seq<char>)
    requires
        text_order(a, b) == Ordering::Less,
        text_order(b, c) == Ordering::Less,
    ensures
        text_order(a, c) == Ordering::Less,
    decreases a.len(),
{
    if a.len() > 0 && b.len() > 0 && c.len() > 0 {
        if !precedes(a[0], b[0]) && !precedes(b[0], c[0]) {
            law_order_is_transitive(a.drop_first(), b.drop_first(), c.drop_first());
        }
    }
}

/// Characters come in the order of their codes.
pub proof fn law_characters_come_by_their_codes(a: char, b: char)
    ensures
        precedes(a, b) <==> a < b,
        precedes(a, b) <==> (a as u32) < (b as u32),
{
}

/// The first character in which two texts differ decides: the lesser one comes first.
pub proof fn law_first_difference_decides(a: Seq<char>, b: Seq<char>, i: int)
    requires
        0 <= i < a.len(),
        i < b.len(),
        a.take(i) == b.take(i),
        a[i] < b[i],
    ensures
        text_order(a, b) == Ordering::Less,
        text_order(b, a) == Ordering::Greater,
    decreases i,
{
    law_characters_come_by_their_codes(a[i], b[i]);
    law_characters_come_by_their_codes(b[i], a[i]);
    if i > 0 {
        assert(a.take(i)[0] == a[0] && b.take(i)[0] == b[0]);
        assert(a[0] == b[0]);
        assert(a.drop_first().take(i - 1) =~= a.take(i).drop_first());
        assert(b.drop_first().take(i - 1) =~= b.take(i).drop_first());
        law_first_difference_decides(a.drop_first(), b.drop_first(), i - 1);
    }
}

/// A text comes before every longer one that begins with it.
pub proof fn law_beginnings_come_first(a: Seq<char>, b: Seq<char>)
    requires
        a.len() < b.len(),
        a.is_prefix_of(b),
    ensures
        text_order(a, b) == Ordering::Less,
        text_order(b, a) == Ordering::Greater,
    decreases a.len(),
{
    if a.len() > 0 {
        assert(a[0] == b[0]);
        assert(a.drop_first().is_prefix_of(b.drop_first()));
        law_beginnings_come_first(a.drop_first(), b.drop_first());
    }
}

} // verus!
