//! What the store does with a string, and with the parts of a string, told by the characters and
//! the hashes alone.
//!
//! A string is reserved where it is empty or a single character with a code below 256; every
//! other string is found by the XXH3 of its UTF-8 bytes.
use crate::contents::{
    apart, are_slots, collides, initial_contents, interned, interned_all, is_filed_at, latin1,
    lemma_interned, lemma_interned_all_prefix, lemma_interned_all_push, lemma_interned_all_take,
    lemma_interned_all_valid, lemma_slot_is, lemma_slot_stable, max_len, reserved_index, slot,
    text_hash, valid_contents,
};
use crate::error::{StringStoreError, StringStoreResult};
use crate::index::xxh3_of;
use crate::laws::{lemma_char_of_code, lemma_parts_stand_at_their_indices};
use crate::split::{
    cuts, join, law_join_undoes_split, lemma_whole_splits, split_from, split_parts,
};
use crate::store::{
    first_latin1, is_first_bad, is_reconstruction, multi_parts_of, multi_texts, parts_of,
    regex_chosen, split_texts, texts_at, UniqueStrStore, PATH_SEP,
};
use crate::token::{contents_of, occurs_at, tokens_of};
use crate::token_laws::law_tokens;
use vstd::prelude::*;
use vstd::utf8::encode_utf8;

verus! {

/// A new store holds the empty string and the ISO-8859-1 characters, each at its code.
pub proof fn law_new_store_holds_latin1(i: int)
    ensures
        valid_contents(initial_contents()),
        initial_contents().len() == 256,
        initial_contents()[0] == Seq::<char>::empty(),
        0 < i < 256 ==> initial_contents()[i] == seq![i as u32 as char],
{
}

/// So does every store, at the start of its contents, and no string past them is one of those.
pub proof fn law_every_store_starts_with_latin1(store: UniqueStrStore, i: int)
    requires
        store.wf(),
    ensures
        valid_contents(store@),
        256 <= store@.len() <= max_len(),
        store@[0] == Seq::<char>::empty(),
        0 < i < 256 ==> store@[i] == seq![i as u32 as char],
        256 <= i < store@.len() ==> store@[i].len() > 0,
        256 <= i < store@.len() && store@[i].len() == 1 ==> store@[i][0] as u32 >= 256,
{
    assert(store@[0] == latin1(0));
    if 0 < i < 256 {
        assert(store@[i] == latin1(i));
    }
    if 256 <= i < store@.len() {
        assert(reserved_index(store@[i]) is None);
    }
}

/// Where addresses are wide enough, all indices of 32 bits can be taken: 255 less than the
/// greatest of them by strings other than the reserved ones.
pub proof fn law_every_index_can_be_taken()
    ensures
        usize::MAX >= 0x1_0000_0000 ==> max_len() - 256 == u32::MAX - 255,
        usize::MAX < 0x1_0000_0000 ==> max_len() == usize::MAX,
{
}

/// A reserved string is found at its code. Any other string is found at `i` exactly if the
/// string held there, past the reserved ones, has the XXH3 of its bytes.
pub proof fn law_strings_are_found_by_their_hash(v: Seq<Seq<char>>, s: Seq<char>, i: int)
    requires
        valid_contents(v),
    ensures
        s.len() == 0 ==> slot(v, s) == Some(0int),
        s.len() == 1 && (s[0] as u32) < 256 ==> slot(v, s) == Some(s[0] as u32 as int),
        s.len() > 1 || (s.len() == 1 && s[0] as u32 >= 256) ==> (slot(v, s) == Some(i) <==> 256 <= i
            < v.len() && xxh3_of(encode_utf8(v[i])) == xxh3_of(encode_utf8(s))),
{
    if reserved_index(s) is None {
        if slot(v, s) is Some {
            let c = choose|c: int| is_filed_at(v, s, c);
            assert(is_filed_at(v, s, c));
        }
        if 256 <= i < v.len() && xxh3_of(encode_utf8(v[i])) == xxh3_of(encode_utf8(s)) {
            assert(is_filed_at(v, s, i));
            lemma_slot_is(v, s, i);
        }
    }
}

/// A string collides exactly if it is not reserved and another string, held past the reserved
/// ones, has the XXH3 of its bytes.
pub proof fn law_collisions_share_a_hash(v: Seq<Seq<char>>, s: Seq<char>)
    ensures
        collides(v, s) <==> {
            &&& s.len() > 1 || (s.len() == 1 && s[0] as u32 >= 256)
            &&& exists|i: int|
                256 <= i < v.len() && #[trigger] v[i] != s && xxh3_of(encode_utf8(v[i])) == xxh3_of(
                    encode_utf8(s),
                )
        },
{
    if collides(v, s) {
        let i = choose|i: int| #[trigger] is_filed_at(v, s, i) && v[i] != s;
        assert(v[i] != s);
    }
    if reserved_index(s) is None && exists|i: int|
        256 <= i < v.len() && #[trigger] v[i] != s && xxh3_of(encode_utf8(v[i])) == xxh3_of(
            encode_utf8(s),
        ) {
        let i = choose|i: int|
            256 <= i < v.len() && #[trigger] v[i] != s && xxh3_of(encode_utf8(v[i])) == xxh3_of(
                encode_utf8(s),
            );
        assert(is_filed_at(v, s, i));
    }
}

/// A list can be stored beside what is held exactly if, of all these strings, no two that are
/// not reserved share an XXH3 without being the same.
pub proof fn law_what_can_be_stored_shares_no_hash(v: Seq<Seq<char>>, parts: Seq<Seq<char>>)
    ensures
        apart(v, parts) <==> forall|a: Seq<char>, b: Seq<char>|
            #![trigger encode_utf8(a), encode_utf8(b)]
            {
                &&& v.contains(a) || parts.contains(a)
                &&& v.contains(b) || parts.contains(b)
                &&& a.len() > 1 || (a.len() == 1 && a[0] as u32 >= 256)
                &&& b.len() > 1 || (b.len() == 1 && b[0] as u32 >= 256)
                &&& xxh3_of(encode_utf8(a)) == xxh3_of(encode_utf8(b))
            } ==> a == b,
{
    let all = v + parts;
    assert forall|a: Seq<char>| v.contains(a) || parts.contains(a) implies exists|i: int|
        0 <= i < all.len() && #[trigger] all[i] == a by {
        if v.contains(a) {
            let i = choose|i: int| 0 <= i < v.len() && v[i] == a;
            assert(all[i] == a);
        } else {
            let i = choose|i: int| 0 <= i < parts.len() && parts[i] == a;
            assert(all[v.len() + i] == a);
        }
    }
    if apart(v, parts) {
        assert forall|a: Seq<char>, b: Seq<char>|
            #![trigger encode_utf8(a), encode_utf8(b)]
            {
                &&& v.contains(a) || parts.contains(a)
                &&& v.contains(b) || parts.contains(b)
                &&& a.len() > 1 || (a.len() == 1 && a[0] as u32 >= 256)
                &&& b.len() > 1 || (b.len() == 1 && b[0] as u32 >= 256)
                &&& xxh3_of(encode_utf8(a)) == xxh3_of(encode_utf8(b))
            } implies a == b by {
            let i = choose|i: int| 0 <= i < all.len() && #[trigger] all[i] == a;
            let j = choose|j: int| 0 <= j < all.len() && #[trigger] all[j] == b;
            assert(reserved_index(all[i]) is None && reserved_index(all[j]) is None);
            assert(text_hash(all[i]) == text_hash(all[j]));
        }
    } else {
        let (i, j) = choose|i: int, j: int|
            {
                &&& 0 <= i < all.len()
                &&& 0 <= j < all.len()
                &&& reserved_index(#[trigger] all[i]) is None
                &&& reserved_index(#[trigger] all[j]) is None
                &&& text_hash(all[i]) == text_hash(all[j])
                &&& all[i] != all[j]
            };
        let (a, b) = (all[i], all[j]);
        assert(v.contains(a) || parts.contains(a)) by {
            if i < v.len() {
                assert(v[i] == a);
            } else {
                assert(parts[i - v.len()] == a);
            }
        }
        assert(v.contains(b) || parts.contains(b)) by {
            if j < v.len() {
                assert(v[j] == b);
            } else {
                assert(parts[j - v.len()] == b);
            }
        }
        assert(xxh3_of(encode_utf8(a)) == xxh3_of(encode_utf8(b)));
    }
}

/// Inserting appends the string, unless it is reserved or a string held past the reserved ones
/// has the XXH3 of its bytes; then nothing changes.
pub proof fn law_insertion_appends_what_is_new(v: Seq<Seq<char>>, s: Seq<char>)
    ensures
        interned(v, s) == (if {
            &&& s.len() > 1 || (s.len() == 1 && s[0] as u32 >= 256)
            &&& forall|i: int|
                256 <= i < v.len() ==> xxh3_of(encode_utf8(#[trigger] v[i])) != xxh3_of(
                    encode_utf8(s),
                )
        } {
            v.push(s)
        } else {
            v
        }),
{
    if reserved_index(s) is None {
        if exists|i: int| is_filed_at(v, s, i) {
            let i = choose|i: int| is_filed_at(v, s, i);
            assert(is_filed_at(v, s, i));
            assert(xxh3_of(encode_utf8(v[i])) == xxh3_of(encode_utf8(s)));
        } else {
            assert forall|i: int| 256 <= i < v.len() implies xxh3_of(encode_utf8(#[trigger] v[i]))
                != xxh3_of(encode_utf8(s)) by {
                assert(!is_filed_at(v, s, i));
            }
        }
    }
}

/// Storing a list is inserting its strings one after the other.
pub proof fn law_a_list_is_stored_string_by_string(
    v: Seq<Seq<char>>,
    parts: Seq<Seq<char>>,
    s: Seq<char>,
)
    ensures
        interned_all(v, seq![]) == v,
        interned_all(v, parts.push(s)) == interned(interned_all(v, parts), s),
{
    lemma_interned_all_push(v, parts, s);
}

/// The indices that a stored list gets: one for each string, under which it stands from then on.
/// Only the character with code 0 shares the index of the empty string.
pub proof fn law_stored_strings_stand_at_their_indices(
    v: Seq<Seq<char>>,
    list: Seq<Seq<char>>,
    indices: Seq<u32>,
    n: int,
)
    requires
        valid_contents(v),
        apart(v, list),
        interned_all(v, list).len() <= max_len(),
        are_slots(interned_all(v, list), list, indices),
    ensures
        indices.len() == list.len(),
        0 <= n < list.len() ==> indices[n] < interned_all(v, list).len(),
        0 <= n < list.len() && list[n] != seq!['\0'] ==> interned_all(v, list)[indices[n] as int]
            == list[n],
        0 <= n < list.len() && list[n] == seq!['\0'] ==> indices[n] == 0,
{
    assert forall|m: int| 0 <= m < list.len() implies list.contains(#[trigger] list[m]) by {}
    lemma_parts_stand_at_their_indices(v, list, indices, list);
    if 0 <= n < list.len() {
        assert(slot(interned_all(v, list), list[n]) == Some(indices[n] as int));
        if list[n] == seq!['\0'] {
            lemma_char_of_code('\0');
        }
    }
}

/// After the first `n` strings of a list, every new index `j` belongs to one of them.
proof fn lemma_new_index(
    v: Seq<Seq<char>>,
    list: Seq<Seq<char>>,
    indices: Seq<u32>,
    n: int,
    j: int,
)
    requires
        valid_contents(v),
        interned_all(v, list).len() <= max_len(),
        are_slots(interned_all(v, list), list, indices),
        0 <= n <= list.len(),
    ensures
        v.is_prefix_of(interned_all(v, list.take(n))),
        forall|m: int| 0 <= m < n ==> (#[trigger] indices[m]) < interned_all(v, list.take(n)).len(),
        v.len() <= j < interned_all(v, list.take(n)).len() ==> exists|m: int|
            0 <= m < n && #[trigger] indices[m] == j,
    decreases n,
{
    let u = interned_all(v, list.take(n));
    lemma_interned_all_prefix(v, list.take(n));
    if n == 0 {
        assert(list.take(0) =~= seq![]);
    } else {
        let before = interned_all(v, list.take(n - 1));
        lemma_new_index(v, list, indices, n - 1, j);
        lemma_step(v, list, indices, n - 1);
        assert(u == interned(before, list[n - 1]));
        if v.len() <= j < u.len() && j >= before.len() {
            assert(indices[n - 1] == j);
        }
    }
}

/// What happens to the `n`-th string of a list.
proof fn lemma_step(v: Seq<Seq<char>>, list: Seq<Seq<char>>, indices: Seq<u32>, n: int)
    requires
        valid_contents(v),
        interned_all(v, list).len() <= max_len(),
        are_slots(interned_all(v, list), list, indices),
        0 <= n < list.len(),
    ensures
        interned_all(v, list.take(n + 1)) == interned(interned_all(v, list.take(n)), list[n]),
        indices[n] < interned_all(v, list.take(n + 1)).len(),
        slot(interned_all(v, list.take(n)), list[n]) is Some ==> indices[n] < interned_all(
            v,
            list.take(n),
        ).len(),
        slot(interned_all(v, list.take(n)), list[n]) is None ==> indices[n] == interned_all(
            v,
            list.take(n),
        ).len(),
{
    let w = interned_all(v, list);
    let u = interned_all(v, list.take(n));
    let s = list[n];
    assert(list.take(n + 1) =~= list.take(n).push(s));
    lemma_interned_all_push(v, list.take(n), s);
    lemma_interned_all_take(v, list, n);
    lemma_interned_all_take(v, list, n + 1);
    lemma_interned_all_prefix(v, list.take(n));
    lemma_interned_all_valid(v, list);
    lemma_interned_all_valid(v, list.take(n));
    lemma_interned_all_valid(v, list.take(n + 1));
    assert(slot(w, s) == Some(indices[n] as int));
    lemma_interned(u, s);
    lemma_slot_stable(interned(u, s), w, s);
    if slot(u, s) is Some {
        law_strings_are_found_by_their_hash(u, s, slot(u, s)->0);
        lemma_slot_stable(u, w, s);
    }
}

/// Indices are handed out in the order of the list: a string has an index from before, or that of
/// an earlier string of the list, or the next one, greater than all before it and with no gap.
/// And nothing else is stored.
pub proof fn law_indices_are_handed_out_in_order(
    v: Seq<Seq<char>>,
    list: Seq<Seq<char>>,
    indices: Seq<u32>,
    n: int,
    j: int,
)
    requires
        valid_contents(v),
        interned_all(v, list).len() <= max_len(),
        are_slots(interned_all(v, list), list, indices),
    ensures
        0 <= n < list.len() ==> {
            ||| indices[n] < v.len()
            ||| exists|m: int| 0 <= m < n && #[trigger] indices[m] == indices[n]
            ||| {
                &&& forall|m: int| 0 <= m < n ==> #[trigger] indices[m] < indices[n]
                &&& indices[n] == v.len() || exists|m: int|
                    0 <= m < n && #[trigger] indices[m] == indices[n] - 1
            }
        },
        v.len() <= interned_all(v, list).len(),
        0 <= j < v.len() ==> interned_all(v, list)[j] == v[j],
        v.len() <= j < interned_all(v, list).len() ==> exists|m: int|
            0 <= m < list.len() && #[trigger] indices[m] == j,
{
    lemma_interned_all_prefix(v, list);
    lemma_new_index(v, list, indices, list.len() as int, j);
    assert(list.take(list.len() as int) =~= list);
    if 0 <= n < list.len() {
        let u = interned_all(v, list.take(n));
        lemma_new_index(v, list, indices, n, u.len() - 1);
        lemma_new_index(v, list, indices, n, indices[n] as int);
        lemma_step(v, list, indices, n);
        if slot(u, list[n]) is None && u.len() > v.len() {
            let m = choose|m: int| 0 <= m < n && #[trigger] indices[m] == u.len() - 1;
            assert(indices[m] == indices[n] - 1);
        }
    }
}

/// The parts of a string that are stored, told by its characters. Where neither the string nor
/// the delimiter is empty: put together with the delimiter between each two they give the string;
/// behind every part but the last the delimiter stands where it begins for the first time since
/// the part did; and in the last part it does not stand at all.
pub proof fn law_stored_parts(t: Seq<char>, d: Seq<char>, n: int, i: int)
    ensures
        parts_of(t, d).len() > 0,
        join(parts_of(t, d), d) == t,
        t.len() == 0 ==> parts_of(t, d) == seq![Seq::<char>::empty()],
        t.len() > 0 && d.len() == 0 ==> {
            &&& parts_of(t, d).len() == t.len() + 2
            &&& parts_of(t, d)[0].len() == 0
            &&& parts_of(t, d)[1int + t.len()].len() == 0
            &&& 0 < n <= t.len() ==> parts_of(t, d)[n] == seq![t[n - 1]]
        },
        t.len() > 0 && d.len() > 0 ==> parts_of(t, d).len() == cuts(t, d).len() + 1,
        t.len() > 0 && d.len() > 0 && 0 <= n < parts_of(t, d).len() - 1 && 0 <= i < parts_of(
            t,
            d,
        )[n].len() ==> (parts_of(t, d)[n] + d).subrange(i, i + d.len()) != d,
        t.len() > 0 && d.len() > 0 && n == parts_of(t, d).len() - 1 && 0 <= i && i + d.len()
            <= parts_of(t, d)[n].len() ==> parts_of(t, d)[n].subrange(i, i + d.len()) != d,
{
    law_join_undoes_split(t, d);
    if t.len() == 0 {
        assert(t =~= Seq::<char>::empty());
        assert(parts_of(t, d) =~= seq![Seq::<char>::empty()]);
        assert(join(parts_of(t, d), d) == parts_of(t, d)[0]);
    } else if d.len() > 0 {
        lemma_whole_splits(t, d, n, i);
        let parts = split_parts(t, d);
        if 0 <= n < parts.len() - 1 && 0 <= i < parts[n].len() {
            assert(!occurs_at(parts[n] + d, d, i));
        }
        if n == parts.len() - 1 {
            assert(!occurs_at(parts[n], d, i));
        }
    }
}

/// The indices of two lists, one after the other.
proof fn lemma_slots_of_both(
    w: Seq<Seq<char>>,
    a: Seq<Seq<char>>,
    b: Seq<Seq<char>>,
    a_indices: Seq<u32>,
    b_indices: Seq<u32>,
)
    requires
        are_slots(w, a, a_indices),
        are_slots(w, b, b_indices),
    ensures
        are_slots(w, a + b, a_indices + b_indices),
{
    let (list, all) = (a + b, a_indices + b_indices);
    assert forall|m: int| 0 <= m < list.len() implies slot(w, list[m]) == Some(
        #[trigger] all[m] as int,
    ) && all[m] < w.len() by {
        if m < a.len() {
            assert(slot(w, a[m]) == Some(a_indices[m] as int));
            assert(a_indices[m] < w.len());
        } else {
            assert(slot(w, b[m - a.len()]) == Some(b_indices[m - a.len()] as int));
            assert(b_indices[m - a.len()] < w.len());
        }
    }
}

/// What splitting stores and in which order: the index of the delimiter is handed out first, then
/// those of the parts from left to right, each new string gets the next index, and nothing but
/// the delimiter and the parts is stored.
pub proof fn law_delimiter_and_parts_are_stored_in_order(
    v: Seq<Seq<char>>,
    t: Seq<char>,
    d: Seq<char>,
    indices: Seq<u32>,
    delim: u32,
    n: int,
    j: int,
)
    requires
        valid_contents(v),
        interned_all(v, split_texts(t, d)).len() <= max_len(),
        are_slots(interned_all(v, split_texts(t, d)), parts_of(t, d), indices),
        are_slots(interned_all(v, split_texts(t, d)), seq![d], seq![delim]),
    ensures
        ({
            let all = seq![delim] + indices;
            let w = interned_all(v, split_texts(t, d));
            &&& 0 <= n < all.len() ==> {
                ||| all[n] < v.len()
                ||| exists|m: int| 0 <= m < n && #[trigger] all[m] == all[n]
                ||| {
                    &&& forall|m: int| 0 <= m < n ==> #[trigger] all[m] < all[n]
                    &&& all[n] == v.len() || exists|m: int|
                        0 <= m < n && #[trigger] all[m] == all[n] - 1
                }
            }
            &&& v.len() <= w.len()
            &&& 0 <= j < v.len() ==> w[j] == v[j]
            &&& v.len() <= j < w.len() ==> exists|m: int|
                0 <= m < all.len() && #[trigger] all[m] == j
        }),
{
    let list = split_texts(t, d);
    lemma_slots_of_both(interned_all(v, list), seq![d], parts_of(t, d), seq![delim], indices);
    assert(list =~= seq![d] + parts_of(t, d));
    law_indices_are_handed_out_in_order(v, list, seq![delim] + indices, n, j);
}

/// What splitting at several delimiters stores and in which order: the indices of the delimiters
/// are handed out first, then those of the tokens from left to right, each new string gets the
/// next index, and nothing but the delimiters and the tokens is stored.
pub proof fn law_delimiters_and_tokens_are_stored_in_order(
    v: Seq<Seq<char>>,
    t: Seq<char>,
    delims: Seq<Seq<char>>,
    indices: Seq<u32>,
    delim_indices: Seq<u32>,
    n: int,
    j: int,
)
    requires
        valid_contents(v),
        interned_all(v, multi_texts(t, delims)).len() <= max_len(),
        are_slots(interned_all(v, multi_texts(t, delims)), multi_parts_of(t, delims), indices),
        are_slots(interned_all(v, multi_texts(t, delims)), delims, delim_indices),
    ensures
        ({
            let all = delim_indices + indices;
            let w = interned_all(v, multi_texts(t, delims));
            &&& 0 <= n < all.len() ==> {
                ||| all[n] < v.len()
                ||| exists|m: int| 0 <= m < n && #[trigger] all[m] == all[n]
                ||| {
                    &&& forall|m: int| 0 <= m < n ==> #[trigger] all[m] < all[n]
                    &&& all[n] == v.len() || exists|m: int|
                        0 <= m < n && #[trigger] all[m] == all[n] - 1
                }
            }
            &&& v.len() <= w.len()
            &&& 0 <= j < v.len() ==> w[j] == v[j]
            &&& v.len() <= j < w.len() ==> exists|m: int|
                0 <= m < all.len() && #[trigger] all[m] == j
        }),
{
    let list = multi_texts(t, delims);
    lemma_slots_of_both(
        interned_all(v, list),
        delims,
        multi_parts_of(t, delims),
        delim_indices,
        indices,
    );
    assert(list =~= delims + multi_parts_of(t, delims));
    law_indices_are_handed_out_in_order(v, list, delim_indices + indices, n, j);
}

/// No string at an index that splitting returned holds the delimiter, there is one index more
/// than the delimiter is cut out, and the delimiter is stored before the parts.
pub proof fn law_split_strings_hold_no_delimiter(
    v: Seq<Seq<char>>,
    t: Seq<char>,
    d: Seq<char>,
    indices: Seq<u32>,
    delim: u32,
    n: int,
    i: int,
)
    requires
        valid_contents(v),
        apart(v, split_texts(t, d)),
        interned_all(v, split_texts(t, d)).len() <= max_len(),
        are_slots(interned_all(v, split_texts(t, d)), parts_of(t, d), indices),
        are_slots(interned_all(v, split_texts(t, d)), seq![d], seq![delim]),
    ensures
        t.len() > 0 && d.len() > 0 ==> indices.len() == cuts(t, d).len() + 1,
        t.len() > 0 && d.len() == 0 ==> indices.len() == t.len() + 2,
        t.len() == 0 ==> indices == seq![0u32],
        0 <= n < indices.len() ==> indices[n] < interned_all(v, split_texts(t, d)).len(),
        0 <= n < indices.len() && parts_of(t, d)[n] != seq!['\0'] ==> interned_all(
            v,
            split_texts(t, d),
        )[indices[n] as int] == parts_of(t, d)[n],
        d.len() > 0 && 0 <= n < indices.len() && 0 <= i && i + d.len() <= interned_all(
            v,
            split_texts(t, d),
        )[
            indices[n] as int
        ].len() ==> interned_all(v, split_texts(t, d))[indices[n] as int].subrange(i, i + d.len())
            != d,
        d != seq!['\0'] ==> interned_all(v, split_texts(t, d))[delim as int] == d,
        delim <= v.len(),
        slot(v, d) is Some ==> delim as int == slot(v, d)->0,
        slot(v, d) is None ==> delim == v.len(),
{
    let list = split_texts(t, d);
    let w = interned_all(v, list);
    let parts = parts_of(t, d);
    let all = seq![delim] + indices;
    law_stored_parts(t, d, n, i);
    lemma_slots_of_both(w, seq![d], parts, seq![delim], indices);
    assert(list =~= seq![d] + parts);
    law_stored_strings_stand_at_their_indices(v, list, all, 0);
    lemma_step(v, list, all, 0);
    assert(list.take(0) =~= seq![]);
    lemma_interned_all_prefix(v, list);
    lemma_interned_all_valid(v, list);
    if slot(v, d) is Some {
        lemma_slot_stable(v, w, d);
    }
    if 0 <= n < indices.len() {
        law_stored_strings_stand_at_their_indices(v, list, all, n + 1);
        assert(all[n + 1] == indices[n]);
        assert(list[n + 1] == parts[n]);
        if parts[n] == seq!['\0'] {
            assert(w[0] == latin1(0));
        } else if t.len() > 0 && n < parts.len() - 1 && 0 <= i && i + d.len() <= parts[n].len() {
            assert((parts[n] + d).subrange(i, i + d.len()) =~= parts[n].subrange(i, i + d.len()));
        }
    }
    if t.len() == 0 {
        law_strings_are_found_by_their_hash(w, parts[0], 0);
        lemma_interned_all_valid(v, list);
        assert(slot(w, parts[0]) == Some(indices[0] as int));
        assert(indices =~= seq![0u32]);
    }
}

/// Cutting at a single character: one part more than the character occurs.
proof fn lemma_count(t: Seq<char>, c: char, from: int, start: int)
    requires
        0 <= start <= from <= t.len(),
    ensures
        split_from(t, seq![c], from, start).len() == t.subrange(
            from,
            t.len() as int,
        ).filter(|x: char| x == c).len() + 1,
    decreases t.len() - from,
{
    let d = seq![c];
    let is_c = |x: char| x == c;
    let rest = t.subrange(from, t.len() as int);
    reveal(Seq::filter);
    if from < t.len() {
        let tail = t.subrange(from + 1, t.len() as int);
        assert(rest =~= seq![t[from]] + tail);
        Seq::filter_distributes_over_add(seq![t[from]], tail, is_c);
        assert(seq![t[from]].drop_last() =~= seq![]);
        reveal_with_fuel(Seq::filter, 2);
        assert(seq![t[from]].filter(is_c).len() == if t[from] == c { 1int } else { 0 });
        assert(t.subrange(from, from + 1) =~= seq![t[from]]);
        assert(occurs_at(t, d, from) <==> t[from] == c) by {
            assert(seq![t[from]][0] == t[from] && d[0] == c);
        }
        if t[from] == c {
            lemma_count(t, c, from + 1, from + 1);
        } else {
            lemma_count(t, c, from + 1, start);
        }
    } else {
        assert(rest =~= seq![]);
    }
}

/// No string at an index that storing a path returned holds a slash, and there is one index more
/// than there are slashes in the path.
pub proof fn law_path_segments_hold_no_slash(
    v: Seq<Seq<char>>,
    path: Seq<char>,
    indices: Seq<u32>,
    n: int,
)
    requires
        valid_contents(v),
        apart(v, parts_of(path, PATH_SEP@)),
        interned_all(v, parts_of(path, PATH_SEP@)).len() <= max_len(),
        are_slots(interned_all(v, parts_of(path, PATH_SEP@)), parts_of(path, PATH_SEP@), indices),
    ensures
        indices.len() == path.filter(|c: char| c == '/').len() + 1,
        join(parts_of(path, PATH_SEP@), seq!['/']) == path,
        0 <= n < indices.len() ==> !parts_of(path, PATH_SEP@)[n].contains('/'),
        0 <= n < indices.len() ==> indices[n] < interned_all(v, parts_of(path, PATH_SEP@)).len(),
        0 <= n < indices.len() ==> !interned_all(v, parts_of(path, PATH_SEP@))[
            indices[n] as int
        ].contains('/'),
        0 <= n < indices.len() && parts_of(path, PATH_SEP@)[n] != seq!['\0'] ==> interned_all(
            v,
            parts_of(path, PATH_SEP@),
        )[indices[n] as int] == parts_of(path, PATH_SEP@)[n],
{
    let d = PATH_SEP@;
    let parts = parts_of(path, d);
    let w = interned_all(v, parts);
    reveal_strlit("/");
    assert(d =~= seq!['/']);
    law_stored_parts(path, d, n, 0);
    law_stored_strings_stand_at_their_indices(v, parts, indices, n);
    lemma_interned_all_valid(v, parts);
    assert(w[0] == latin1(0));
    reveal(Seq::filter);
    if path.len() > 0 {
        lemma_count(path, '/', 0, 0);
        assert(path.subrange(0, path.len() as int) =~= path);
    }
    if 0 <= n < indices.len() && parts[n].contains('/') {
        let i = choose|i: int| 0 <= i < parts[n].len() && parts[n][i] == '/';
        law_stored_parts(path, d, n, i);
        if n < parts.len() - 1 {
            assert((parts[n] + d).subrange(i, i + d.len()) =~= d);
        } else {
            assert(parts[n].subrange(i, i + d.len()) =~= d);
        }
    }
}

/// Splitting at several delimiters returns one index for each token, which stands for the
/// content of the token, and one for each delimiter. A text is never next to a text. Where the
/// string is empty or there is no delimiter, the string itself is stored.
pub proof fn law_tokens_are_stored_one_by_one(
    v: Seq<Seq<char>>,
    t: Seq<char>,
    delims: Seq<Seq<char>>,
    indices: Seq<u32>,
    delim_indices: Seq<u32>,
    n: int,
    k: int,
)
    requires
        valid_contents(v),
        apart(v, multi_texts(t, delims)),
        interned_all(v, multi_texts(t, delims)).len() <= max_len(),
        are_slots(interned_all(v, multi_texts(t, delims)), multi_parts_of(t, delims), indices),
        are_slots(interned_all(v, multi_texts(t, delims)), delims, delim_indices),
    ensures
        t.len() > 0 && delims.len() > 0 ==> {
            &&& indices.len() == tokens_of(t, delims).len()
            &&& 0 <= n < indices.len() && tokens_of(t, delims)[n].content != seq!['\0']
                ==> interned_all(v, multi_texts(t, delims))[indices[n] as int] == tokens_of(
                t,
                delims,
            )[n].content
            &&& 0 <= n < indices.len() && tokens_of(t, delims)[n].content == seq!['\0']
                ==> indices[n] == 0
            &&& 0 < n < indices.len() ==> exists|m: int, e: int|
                n - 1 <= m <= n && 0 <= e < delims.len() && #[trigger] indices[m]
                    == #[trigger] delim_indices[e] && delims[e].len() > 0
        },
        t.len() == 0 || delims.len() == 0 ==> {
            &&& indices.len() == 1
            &&& t != seq!['\0'] ==> interned_all(v, multi_texts(t, delims))[indices[0] as int] == t
            &&& t == seq!['\0'] ==> indices[0] == 0
        },
        delim_indices.len() == delims.len(),
        0 <= k < delims.len() && delims[k] != seq!['\0'] ==> interned_all(
            v,
            multi_texts(t, delims),
        )[delim_indices[k] as int] == delims[k],
        0 <= k < delims.len() && delims[k] == seq!['\0'] ==> delim_indices[k] == 0,
{
    let list = multi_texts(t, delims);
    let w = interned_all(v, list);
    let parts = multi_parts_of(t, delims);
    let all = delim_indices + indices;
    lemma_slots_of_both(w, delims, parts, delim_indices, indices);
    assert(list =~= delims + parts);
    law_stored_strings_stand_at_their_indices(v, list, all, delims.len() + n);
    law_stored_strings_stand_at_their_indices(v, list, all, delims.len() as int);
    law_stored_strings_stand_at_their_indices(v, list, all, k);
    if 0 <= n < indices.len() {
        assert(all[delims.len() + n] == indices[n]);
        assert(list[delims.len() + n] == parts[n]);
    }
    assert(parts.len() > 0 ==> all[delims.len() as int] == indices[0] && list[delims.len() as int]
        == parts[0]);
    if 0 <= k < delims.len() {
        assert(all[k] == delim_indices[k] && list[k] == delims[k]);
    }
    if t.len() > 0 && delims.len() > 0 && 0 < n < indices.len() {
        let tokens = tokens_of(t, delims);
        law_tokens(t, delims, n - 1, 0, 0);
        law_tokens(t, delims, n, 0, 0);
        let m = if tokens[n].is_delim { n } else { n - 1 };
        assert(tokens[m].is_delim);
        let e = tokens[m].delim_idx->0;
        assert(contents_of(tokens)[m] == tokens[m].content);
        assert(parts[m] == delims[e]);
        assert(slot(w, parts[m]) == Some(indices[m] as int));
        assert(slot(w, delims[e]) == Some(delim_indices[e] as int));
        assert(indices[m] == delim_indices[e]);
    }
}

/// When reconstruction fails and how: it does not where there is no index or only that of the
/// empty string; otherwise it fails on too many indices, then on a delimiter that is out of
/// bounds, then on the first index that is.
pub proof fn law_reconstruction_fails_on_what_is_out_of_bounds(
    v: Seq<Seq<char>>,
    indices: Seq<u32>,
    delim: u32,
    result: StringStoreResult<String>,
    pos: int,
)
    requires
        is_reconstruction(v, indices, delim, result),
    ensures
        indices.len() == 0 || (indices.len() == 1 && indices[0] == 0) ==> result is Ok
            && result->Ok_0@.len() == 0,
        indices.len() > u32::MAX ==> result == Err::<String, StringStoreError>(
            StringStoreError::ReconstructionTooLarge {
                requested: indices.len() as usize,
                max: u32::MAX as usize,
            },
        ),
        indices.len() <= u32::MAX && (indices.len() > 1 || (indices.len() == 1 && indices[0] != 0))
            && delim >= v.len() ==> result == Err::<String, StringStoreError>(
            StringStoreError::IndexOutOfBounds { idx: delim, max: (v.len() - 1) as usize },
        ),
        0 <= pos < indices.len() <= u32::MAX && (indices.len() > 1 || indices[0] != 0) && delim
            < v.len() && indices[pos] >= v.len() && (forall|j: int|
            0 <= j < pos ==> #[trigger] indices[j] < v.len()) ==> result == Err::<
            String,
            StringStoreError,
        >(
            StringStoreError::InvalidReconstruction {
                idx: indices[pos],
                pos: pos as usize,
                max: v.len() as u32,
            },
        ),
        indices.len() <= u32::MAX && delim < v.len() && (forall|j: int|
            0 <= j < indices.len() ==> #[trigger] indices[j] < v.len()) ==> result is Ok,
{
    if 0 <= pos < indices.len() && indices[pos] >= v.len() && (forall|j: int|
        0 <= j < pos ==> #[trigger] indices[j] < v.len()) {
        assert(is_first_bad(v, indices, pos));
        let first = choose|first: int| is_first_bad(v, indices, first);
        assert(is_first_bad(v, indices, first));
        assert(indices[first] >= v.len() && indices[pos] >= v.len());
        assert(first == pos);
    }
    if forall|j: int| 0 <= j < indices.len() ==> #[trigger] indices[j] < v.len() {
        assert forall|first: int| !is_first_bad(v, indices, first) by {
            if 0 <= first < indices.len() {
                assert(indices[first] < v.len());
            }
        }
    }
}

/// What is reconstructed: of one index its string, and of one index more the delimiter and the
/// string of that index behind what there was.
pub proof fn law_reconstruction_adds_part_by_part(
    v: Seq<Seq<char>>,
    indices: Seq<u32>,
    idx: u32,
    delim: u32,
    short: StringStoreResult<String>,
    long: StringStoreResult<String>,
)
    requires
        valid_contents(v),
        delim < v.len(),
        idx < v.len(),
        indices.len() < u32::MAX,
        forall|j: int| 0 <= j < indices.len() ==> #[trigger] indices[j] < v.len(),
        is_reconstruction(v, indices, delim, short),
        is_reconstruction(v, indices.push(idx), delim, long),
    ensures
        short is Ok,
        long is Ok,
        indices.len() == 0 ==> long->Ok_0@ == v[idx as int],
        indices.len() > 0 ==> long->Ok_0@ == short->Ok_0@ + v[delim as int] + v[idx as int],
{
    let more = indices.push(idx);
    let d = v[delim as int];
    law_reconstruction_fails_on_what_is_out_of_bounds(v, indices, delim, short, 0);
    assert forall|j: int| 0 <= j < more.len() implies #[trigger] more[j] < v.len() by {
        if j < indices.len() {
            assert(more[j] == indices[j]);
        }
    }
    law_reconstruction_fails_on_what_is_out_of_bounds(v, more, delim, long, 0);
    assert forall|first: int| !is_first_bad(v, indices, first) by {
        if 0 <= first < indices.len() {
            assert(indices[first] < v.len());
        }
    }
    assert forall|first: int| !is_first_bad(v, more, first) by {
        if 0 <= first < more.len() {
            assert(more[first] < v.len());
        }
    }
    assert(v[0] == latin1(0));
    assert(texts_at(v, more).drop_last() =~= texts_at(v, indices));
    if indices.len() == 0 {
        assert(texts_at(v, more) =~= seq![v[idx as int]]);
    } else if indices.len() == 1 {
        assert(texts_at(v, indices) =~= seq![v[indices[0] as int]]);
        assert(join(texts_at(v, indices), d) == v[indices[0] as int]);
    }
}

/// The code of the first character of a string is given exactly if it is below 256.
pub proof fn law_first_code(s: Seq<char>)
    requires
        s.len() > 0,
    ensures
        (s[0] as u32) < 256 ==> first_latin1(s) == Some(s[0] as u32),
        s[0] as u32 >= 256 ==> first_latin1(s) is None,
{
}

/// When delimiters are found with a regular expression: as it is said, or where nothing is said,
/// from a product of more than ten thousand or more than ten delimiters on.
pub proof fn law_when_a_regular_expression_is_used(bytes: int, delims: int, choice: bool)
    ensures
        regex_chosen(bytes, delims, Some(choice)) == choice,
        regex_chosen(bytes, delims, None) <==> bytes * delims > 10000 || delims > 10,
{
}

} // verus!
