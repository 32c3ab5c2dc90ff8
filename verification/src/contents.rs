//! What a store holds, as a sequence of texts: the text at position `i` is the one that the
//! index `i` stands for.
use crate::index::xxh3_of;
use vstd::prelude::*;
use vstd::utf8::encode_utf8;

verus! {

/// The number of indices that are set aside: the empty string and the ISO-8859-1 characters.
pub const LATIN1_NUM: u32 = 256;

/// The text at the reserved index `i`: the empty string at 0, otherwise the character `i`.
pub open spec fn latin1(i: int) -> Seq<char> {
    if i == 0 {
        seq![]
    } else {
        seq![i as u32 as char]
    }
}

/// The reserved index of a text, if it has one: that of the empty string is 0, that of a single
/// ISO-8859-1 character its code. (The character with code 0 shares the index of the empty
/// string.)
pub open spec fn reserved_index(s: Seq<char>) -> Option<int> {
    if s.len() == 0 {
        Some(0)
    } else if s.len() == 1 && (s[0] as u32) < LATIN1_NUM {
        Some(s[0] as u32 as int)
    } else {
        None
    }
}

/// The text that is one character with code 0, which shares the index of the empty string.
pub open spec fn nul() -> Seq<char> {
    seq!['\0']
}

/// The hash by which a text is found.
pub open spec fn text_hash(s: Seq<char>) -> u64 {
    xxh3_of(encode_utf8(s))
}

/// The greatest number of texts that a store can hold, so that every index fits in a `u32` and
/// the number of texts in a `usize`.
pub open spec fn max_len() -> int {
    if usize::MAX < 0x1_0000_0000 {
        usize::MAX as int
    } else {
        0x1_0000_0000
    }
}

/// Whether the text at `i` is an unreserved one with the hash of `s`.
pub open spec fn is_filed_at(v: Seq<Seq<char>>, s: Seq<char>, i: int) -> bool {
    LATIN1_NUM <= i < v.len() && text_hash(v[i]) == text_hash(s)
}

/// The index under which a text is found: the reserved one, or that of the text with its hash.
pub open spec fn slot(v: Seq<Seq<char>>, s: Seq<char>) -> Option<int> {
    if reserved_index(s) is Some {
        reserved_index(s)
    } else if exists|i: int| is_filed_at(v, s, i) {
        Some(choose|i: int| is_filed_at(v, s, i))
    } else {
        None
    }
}

/// Whether another text with the hash of the unreserved text `s` is held.
pub open spec fn collides(v: Seq<Seq<char>>, s: Seq<char>) -> bool {
    reserved_index(s) is None && exists|i: int| #[trigger] is_filed_at(v, s, i) && v[i] != s
}

/// The contents after `s` was interned: `s` is appended unless it is found already.
pub open spec fn interned(v: Seq<Seq<char>>, s: Seq<char>) -> Seq<Seq<char>> {
    if slot(v, s) is Some {
        v
    } else {
        v.push(s)
    }
}

/// The contents after each of `parts` was interned, in their order.
pub open spec fn interned_all(v: Seq<Seq<char>>, parts: Seq<Seq<char>>) -> Seq<Seq<char>>
    decreases parts.len(),
{
    if parts.len() == 0 {
        v
    } else {
        interned(interned_all(v, parts.drop_last()), parts.last())
    }
}

/// Whether unreserved texts with one hash are one text, among those held and `parts`.
pub open spec fn apart(v: Seq<Seq<char>>, parts: Seq<Seq<char>>) -> bool {
    forall|i: int, j: int|
        {
            &&& 0 <= i < (v + parts).len()
            &&& 0 <= j < (v + parts).len()
            &&& reserved_index(#[trigger] (v + parts)[i]) is None
            &&& reserved_index(#[trigger] (v + parts)[j]) is None
            &&& text_hash((v + parts)[i]) == text_hash((v + parts)[j])
        } ==> (v + parts)[i] == (v + parts)[j]
}

/// Whether `w` came from `v` by appending: every index still stands for its text, and what was
/// found is found at the same index.
pub open spec fn extends(v: Seq<Seq<char>>, w: Seq<Seq<char>>) -> bool {
    &&& v.is_prefix_of(w)
    &&& forall|s: Seq<char>| #[trigger] slot(v, s) is Some ==> slot(w, s) == slot(v, s)
}

/// What the contents of every store satisfy: the reserved texts come first, no text after them
/// is a reserved one, and no two of these share a hash.
pub open spec fn valid_contents(v: Seq<Seq<char>>) -> bool {
    &&& LATIN1_NUM <= v.len() <= max_len()
    &&& forall|i: int| 0 <= i < LATIN1_NUM ==> #[trigger] v[i] == latin1(i)
    &&& forall|i: int| LATIN1_NUM <= i < v.len() ==> reserved_index(#[trigger] v[i]) is None
    &&& forall|i: int, j: int|
        LATIN1_NUM <= i < v.len() && LATIN1_NUM <= j < v.len() && text_hash(#[trigger] v[i])
            == text_hash(#[trigger] v[j]) ==> i == j
}

/// The contents of a new store.
pub open spec fn initial_contents() -> Seq<Seq<char>> {
    Seq::new(LATIN1_NUM as nat, |i: int| latin1(i))
}

/// The unreserved text at `i` is found at `i`.
pub proof fn lemma_slot_is(v: Seq<Seq<char>>, s: Seq<char>, i: int)
    requires
        valid_contents(v),
        reserved_index(s) is None,
        is_filed_at(v, s, i),
    ensures
        slot(v, s) == Some(i),
{
    let c = choose|c: int| is_filed_at(v, s, c);
    assert(is_filed_at(v, s, c));
    assert(text_hash(v[c]) == text_hash(v[i]));
}

/// What is found is found at the same index in every longer store.
pub proof fn lemma_slot_stable(v: Seq<Seq<char>>, w: Seq<Seq<char>>, s: Seq<char>)
    requires
        valid_contents(w),
        v.is_prefix_of(w),
        slot(v, s) is Some,
    ensures
        slot(w, s) == slot(v, s),
{
    if reserved_index(s) is None {
        let i = choose|i: int| is_filed_at(v, s, i);
        assert(is_filed_at(v, s, i));
        assert(w[i] == v[i]);
        lemma_slot_is(w, s, i);
    }
}

pub proof fn lemma_extends(v: Seq<Seq<char>>, w: Seq<Seq<char>>)
    requires
        valid_contents(w),
        v.is_prefix_of(w),
    ensures
        extends(v, w),
{
    assert forall|s: Seq<char>| #[trigger] slot(v, s) is Some implies slot(w, s) == slot(v, s) by {
        lemma_slot_stable(v, w, s);
    }
}

pub proof fn lemma_interned(v: Seq<Seq<char>>, s: Seq<char>)
    requires
        valid_contents(v),
        interned(v, s).len() <= max_len(),
    ensures
        valid_contents(interned(v, s)),
        v.is_prefix_of(interned(v, s)),
        slot(interned(v, s), s) is Some,
        slot(v, s) is None ==> slot(interned(v, s), s) == Some(v.len() as int),
{
    let w = interned(v, s);
    if slot(v, s) is None {
        assert forall|i: int| LATIN1_NUM <= i < v.len() implies text_hash(#[trigger] w[i])
            != text_hash(s) by {
            assert(!is_filed_at(v, s, i));
            assert(w[i] == v[i]);
        }
        assert(w[v.len() as int] == s);
        assert(is_filed_at(w, s, v.len() as int));
        assert forall|i: int| 0 <= i < LATIN1_NUM implies #[trigger] w[i] == latin1(i) by {
            assert(w[i] == v[i]);
        }
        assert forall|i: int| LATIN1_NUM <= i < w.len() implies reserved_index(
            #[trigger] w[i],
        ) is None by {
            if i < v.len() {
                assert(w[i] == v[i]);
            }
        }
        assert forall|i: int, j: int|
            LATIN1_NUM <= i < w.len() && LATIN1_NUM <= j < w.len() && text_hash(#[trigger] w[i])
                == text_hash(#[trigger] w[j]) implies i == j by {
            if i < v.len() && j < v.len() {
                assert(w[i] == v[i] && w[j] == v[j]);
            }
        }
        lemma_slot_is(w, s, v.len() as int);
    }
}

pub proof fn lemma_interned_all_prefix(v: Seq<Seq<char>>, parts: Seq<Seq<char>>)
    ensures
        v.is_prefix_of(interned_all(v, parts)),
    decreases parts.len(),
{
    if parts.len() > 0 {
        lemma_interned_all_prefix(v, parts.drop_last());
    }
}

/// Interning one more part after the others.
pub proof fn lemma_interned_all_push(v: Seq<Seq<char>>, parts: Seq<Seq<char>>, s: Seq<char>)
    ensures
        interned_all(v, parts.push(s)) == interned(interned_all(v, parts), s),
{
    assert(parts.push(s).drop_last() =~= parts);
}

/// Every text that interning adds is one of the parts.
pub proof fn lemma_interned_all_texts(v: Seq<Seq<char>>, parts: Seq<Seq<char>>, i: int)
    requires
        0 <= i < interned_all(v, parts).len(),
    ensures
        v.contains(interned_all(v, parts)[i]) || parts.contains(interned_all(v, parts)[i]),
        i < v.len() ==> interned_all(v, parts)[i] == v[i],
        i >= v.len() ==> reserved_index(interned_all(v, parts)[i]) is None,
    decreases parts.len(),
{
    let w = interned_all(v, parts);
    if parts.len() == 0 {
        assert(v[i] == w[i]);
    } else {
        let short = interned_all(v, parts.drop_last());
        lemma_interned_all_prefix(v, parts.drop_last());
        if i < short.len() {
            lemma_interned_all_texts(v, parts.drop_last(), i);
            assert(w[i] == short[i]);
            let first = parts.drop_last();
            if first.contains(w[i]) {
                let n = choose|n: int| 0 <= n < first.len() && first[n] == w[i];
                assert(parts[n] == w[i]);
            }
        } else {
            assert(w[i] == parts[parts.len() - 1]);
        }
    }
}

/// Where texts and parts are apart, no part collides when its turn comes.
pub proof fn lemma_apart_step(v: Seq<Seq<char>>, parts: Seq<Seq<char>>, n: int)
    requires
        valid_contents(v),
        apart(v, parts),
        0 <= n < parts.len(),
    ensures
        !collides(interned_all(v, parts.take(n)), parts[n]),
{
    let w = interned_all(v, parts.take(n));
    let s = parts[n];
    let all = v + parts;
    assert(all[v.len() + n] == s);
    if collides(w, s) {
        let i = choose|i: int| #[trigger] is_filed_at(w, s, i) && w[i] != s;
        lemma_interned_all_texts(v, parts.take(n), i);
        if v.contains(w[i]) {
            let k = choose|k: int| 0 <= k < v.len() && v[k] == w[i];
            assert(all[k] == w[i]);
        } else {
            let k = choose|k: int| 0 <= k < n && parts.take(n)[k] == w[i];
            assert(all[v.len() + k] == w[i]);
        }
        assert(false);
    }
}

/// Interning a list is interning its first half and then its second.
pub proof fn lemma_interned_all_concat(
    v: Seq<Seq<char>>,
    a: Seq<Seq<char>>,
    b: Seq<Seq<char>>,
)
    ensures
        interned_all(v, a + b) == interned_all(interned_all(v, a), b),
    decreases b.len(),
{
    if b.len() == 0 {
        assert(a + b =~= a);
    } else {
        lemma_interned_all_concat(v, a, b.drop_last());
        assert((a + b).drop_last() =~= a + b.drop_last());
    }
}

/// Interning the first of the parts gives a prefix of interning all of them.
pub proof fn lemma_interned_all_take(v: Seq<Seq<char>>, parts: Seq<Seq<char>>, n: int)
    requires
        0 <= n <= parts.len(),
    ensures
        interned_all(v, parts.take(n)).is_prefix_of(interned_all(v, parts)),
{
    assert(parts =~= parts.take(n) + parts.skip(n));
    lemma_interned_all_concat(v, parts.take(n), parts.skip(n));
    lemma_interned_all_prefix(interned_all(v, parts.take(n)), parts.skip(n));
}

/// Inserting strings keeps the contents valid.
pub proof fn lemma_interned_all_valid(v: Seq<Seq<char>>, parts: Seq<Seq<char>>)
    requires
        valid_contents(v),
        interned_all(v, parts).len() <= max_len(),
    ensures
        valid_contents(interned_all(v, parts)),
    decreases parts.len(),
{
    if parts.len() > 0 {
        let n = parts.len() - 1;
        assert(parts.take(n) =~= parts.drop_last());
        lemma_interned_all_take(v, parts, n);
        lemma_interned_all_valid(v, parts.drop_last());
        lemma_interned(interned_all(v, parts.drop_last()), parts.last());
    }
}

/// What is apart stays apart while it is interned.
pub proof fn lemma_apart_concat(v: Seq<Seq<char>>, a: Seq<Seq<char>>, b: Seq<Seq<char>>)
    requires
        apart(v, a + b),
    ensures
        apart(v, a),
        apart(interned_all(v, a), b),
{
    let all = v + (a + b);
    let w = interned_all(v, a);
    assert forall|i: int| 0 <= i < (v + a).len() implies #[trigger] (v + a)[i] == all[i] by {}
    assert forall|i: int| 0 <= i < (w + b).len() implies exists|k: int|
        0 <= k < all.len() && all[k] == #[trigger] (w + b)[i] by {
        let s = (w + b)[i];
        if i < w.len() {
            lemma_interned_all_texts(v, a, i);
            if v.contains(s) {
                let k = choose|k: int| 0 <= k < v.len() && v[k] == s;
                assert(all[k] == s);
            } else {
                let k = choose|k: int| 0 <= k < a.len() && a[k] == s;
                assert(all[v.len() + k] == s);
            }
        } else {
            assert(all[v.len() + a.len() + (i - w.len())] == s);
        }
    }
    assert forall|i: int, j: int|
        {
            &&& 0 <= i < (w + b).len()
            &&& 0 <= j < (w + b).len()
            &&& reserved_index(#[trigger] (w + b)[i]) is None
            &&& reserved_index(#[trigger] (w + b)[j]) is None
            &&& text_hash((w + b)[i]) == text_hash((w + b)[j])
        } implies (w + b)[i] == (w + b)[j] by {
        let k = choose|k: int| 0 <= k < all.len() && all[k] == (w + b)[i];
        let l = choose|l: int| 0 <= l < all.len() && all[l] == (w + b)[j];
        assert(all[k] == all[l]);
    }
}

/// After interning, every part is found.
pub proof fn lemma_interned_all_found(v: Seq<Seq<char>>, parts: Seq<Seq<char>>, n: int)
    requires
        v.len() >= LATIN1_NUM,
        0 <= n < parts.len(),
    ensures
        slot(interned_all(v, parts), parts[n]) is Some,
    decreases parts.len(),
{
    let short = interned_all(v, parts.drop_last());
    let w = interned_all(v, parts);
    let s = parts[n];
    lemma_interned_all_prefix(v, parts.drop_last());
    if n < parts.len() - 1 {
        lemma_interned_all_found(v, parts.drop_last(), n);
        lemma_found_stays(short, w, s);
    } else if slot(short, s) is None {
        assert(w[short.len() as int] == s);
        assert(is_filed_at(w, s, short.len() as int));
    }
}

/// What is found is found in every longer sequence.
pub proof fn lemma_found_stays(v: Seq<Seq<char>>, w: Seq<Seq<char>>, s: Seq<char>)
    requires
        v.is_prefix_of(w),
        slot(v, s) is Some,
    ensures
        slot(w, s) is Some,
{
    if reserved_index(s) is None {
        let i = choose|i: int| is_filed_at(v, s, i);
        assert(is_filed_at(v, s, i));
        assert(w[i] == v[i]);
        assert(is_filed_at(w, s, i));
    }
}

/// One more part stays apart where it is reserved, where it is among the texts already, or
/// where its hash is new.
pub proof fn lemma_apart_push(v: Seq<Seq<char>>, parts: Seq<Seq<char>>, s: Seq<char>)
    requires
        apart(v, parts),
    ensures
        apart(v, parts.push(s)) <== {
            ||| reserved_index(s) is Some
            ||| (v + parts).contains(s)
            ||| forall|i: int|
                0 <= i < (v + parts).len() && reserved_index(#[trigger] (v + parts)[i]) is None
                    ==> text_hash((v + parts)[i]) != text_hash(s)
        },
{
    let all = v + parts;
    let more = v + parts.push(s);
    assert(more =~= all.push(s));
    if (v + parts).contains(s) {
        let k = choose|k: int| 0 <= k < all.len() && all[k] == s;
        assert forall|i: int, j: int|
            {
                &&& 0 <= i < more.len()
                &&& 0 <= j < more.len()
                &&& reserved_index(#[trigger] more[i]) is None
                &&& reserved_index(#[trigger] more[j]) is None
                &&& text_hash(more[i]) == text_hash(more[j])
            } implies more[i] == more[j] by {
            let a = if i < all.len() { i } else { k };
            let b = if j < all.len() { j } else { k };
            assert(all[a] == more[i] && all[b] == more[j]);
        }
    } else {
        assert forall|i: int| 0 <= i < all.len() implies #[trigger] more[i] == all[i] by {}
    }
}

/// Whether `indices` are those under which the texts `parts` are found.
pub open spec fn are_slots(v: Seq<Seq<char>>, parts: Seq<Seq<char>>, indices: Seq<u32>) -> bool {
    &&& indices.len() == parts.len()
    &&& forall|n: int|
        0 <= n < parts.len() ==> slot(v, parts[n]) == Some(#[trigger] indices[n] as int)
            && indices[n] < v.len()
}

} // verus!
