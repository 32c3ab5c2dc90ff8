//! What holds of the store as a whole.
//!
//! The laws are stated over contents (`v`, the texts of a store in the order of their indices)
//! and the functions of contents that the methods of the store are specified with.
use crate::contents::{
    apart, are_slots, collides, extends, initial_contents, interned, interned_all, is_filed_at,
    latin1, lemma_interned, lemma_interned_all_prefix, lemma_interned_all_texts,
    lemma_interned_all_valid, lemma_slot_is, lemma_slot_stable, max_len, nul, reserved_index, slot,
    valid_contents, LATIN1_NUM,
};
use crate::error::StringStoreResult;
use crate::handles::StoredStrPtr;
use crate::split::{join, law_empty_parts_mark_delimiters, law_join_undoes_split, split_from};
use crate::store::{
    is_blank, is_first_bad, is_reconstruction, multi_parts_of, multi_texts, parts_of, split_texts,
    texts_at, PATH_SEP,
};
use crate::token::{occurs_at, tokens_of};
use crate::token_laws::{law_token_kinds, law_tokens_spell_the_text};
use vstd::prelude::*;

verus! {

/// The reserved text of a reserved index.
proof fn lemma_latin1_of_reserved(s: Seq<char>)
    requires
        reserved_index(s) is Some,
    ensures
        0 <= reserved_index(s)->0 < LATIN1_NUM,
        s != nul() ==> latin1(reserved_index(s)->0) == s,
{
    if s.len() == 1 {
        lemma_char_of_code(s[0]);
        assert(s =~= seq![s[0]]);
    } else {
        assert(s =~= seq![]);
    }
}

pub proof fn lemma_char_of_code(c: char)
    ensures
        c as u32 as int as u32 as char == c,
        c as u32 == 0 ==> c == '\0',
{
}

/// A string that is found and was not mistaken for another one stands at its index.
pub proof fn law_found_text_stands_at_its_index(v: Seq<Seq<char>>, s: Seq<char>)
    requires
        valid_contents(v),
        slot(v, s) is Some,
        !collides(v, s),
        s != nul(),
    ensures
        0 <= slot(v, s)->0 < v.len(),
        v[slot(v, s)->0] == s,
{
    if reserved_index(s) is Some {
        lemma_latin1_of_reserved(s);
        assert(v[reserved_index(s)->0] == latin1(reserved_index(s)->0));
    } else {
        let i = choose|i: int| is_filed_at(v, s, i);
        assert(is_filed_at(v, s, i));
    }
}

/// Strings with one index are one string.
pub proof fn law_one_index_is_one_string(v: Seq<Seq<char>>, a: Seq<char>, b: Seq<char>)
    requires
        valid_contents(v),
        slot(v, a) is Some,
        slot(v, a) == slot(v, b),
        !collides(v, a),
        !collides(v, b),
        a != nul(),
        b != nul(),
    ensures
        a == b,
{
    law_found_text_stands_at_its_index(v, a);
    law_found_text_stands_at_its_index(v, b);
}

/// What is inserted can be read back at the index that the insertion returns.
pub proof fn law_get_returns_what_was_inserted(v: Seq<Seq<char>>, s: Seq<char>)
    requires
        valid_contents(v),
        !collides(v, s),
        interned(v, s).len() <= max_len(),
        s != nul(),
    ensures
        slot(interned(v, s), s) is Some,
        0 <= slot(interned(v, s), s)->0 < interned(v, s).len(),
        interned(v, s)[slot(interned(v, s), s)->0] == s,
{
    lemma_interned(v, s);
    if slot(v, s) is Some {
        law_found_text_stands_at_its_index(v, s);
    }
}

/// Inserting a string again changes nothing and returns the same index.
pub proof fn law_inserting_again_changes_nothing(v: Seq<Seq<char>>, s: Seq<char>)
    requires
        valid_contents(v),
        interned(v, s).len() <= max_len(),
    ensures
        interned(interned(v, s), s) == interned(v, s),
        slot(v, s) is Some ==> slot(interned(v, s), s) == slot(v, s),
        slot(v, s) is None ==> slot(interned(v, s), s) == Some(v.len() as int),
{
    lemma_interned(v, s);
}

/// Inserting a string, whichever it is, only appends: every index stands for the same string as
/// before, and what was found is found at the same index.
pub proof fn law_insertion_only_appends(v: Seq<Seq<char>>, s: Seq<char>)
    requires
        valid_contents(v),
    ensures
        v.len() <= interned(v, s).len() <= v.len() + 1,
        extends(v, interned(v, s)),
{
    let w = interned(v, s);
    if slot(v, s) is None {
        assert forall|t: Seq<char>| #[trigger] slot(v, t) is Some implies slot(w, t) == slot(
            v,
            t,
        ) by {
            if reserved_index(t) is None {
                let i = choose|i: int| is_filed_at(v, t, i);
                let k = choose|k: int| is_filed_at(w, t, k);
                assert(is_filed_at(v, t, i));
                assert(w[i] == v[i]);
                assert(is_filed_at(w, t, i));
                assert(is_filed_at(w, t, k));
                if k == v.len() {
                    assert(is_filed_at(v, s, i));
                } else {
                    assert(w[k] == v[k]);
                }
                lemma_slot_is(v, t, i);
            }
        }
    }
}

/// What is inserted can still be read back after any later insertions.
pub proof fn law_get_returns_what_was_inserted_earlier(
    v: Seq<Seq<char>>,
    s: Seq<char>,
    later: Seq<Seq<char>>,
)
    requires
        valid_contents(v),
        !collides(v, s),
        interned_all(interned(v, s), later).len() <= max_len(),
        s != nul(),
    ensures
        slot(interned_all(interned(v, s), later), s) == slot(interned(v, s), s),
        slot(interned(v, s), s) is Some,
        interned_all(interned(v, s), later)[slot(interned(v, s), s)->0] == s,
{
    lemma_interned_all_prefix(interned(v, s), later);
    law_get_returns_what_was_inserted(v, s);
    lemma_interned(v, s);
    law_indices_are_stable(interned(v, s), later, s);
}

/// A pointer to an inserted string shows that string, and what the store holds at its index,
/// however much the store has grown since.
pub proof fn law_pointers_keep_their_strings(
    ptr: StoredStrPtr,
    v: Seq<Seq<char>>,
    s: Seq<char>,
    later: Seq<Seq<char>>,
)
    requires
        valid_contents(v),
        !collides(v, s),
        interned_all(interned(v, s), later).len() <= max_len(),
        s != nul(),
        ptr@ == interned(v, s)[slot(interned(v, s), s)->0],
    ensures
        ptr@ == s,
        ptr@ == interned_all(interned(v, s), later)[slot(interned(v, s), s)->0],
{
    lemma_interned_all_prefix(interned(v, s), later);
    law_get_returns_what_was_inserted(v, s);
    law_get_returns_what_was_inserted_earlier(v, s, later);
}

/// Once assigned, an index never changes and never stands for another string: whatever is
/// inserted later, each string keeps its place and is found there.
pub proof fn law_indices_are_stable(v: Seq<Seq<char>>, later: Seq<Seq<char>>, s: Seq<char>)
    requires
        valid_contents(v),
        interned_all(v, later).len() <= max_len(),
    ensures
        forall|i: int| 0 <= i < v.len() ==> #[trigger] interned_all(v, later)[i] == v[i],
        slot(v, s) is Some ==> slot(interned_all(v, later), s) == slot(v, s),
{
    lemma_interned_all_prefix(v, later);
    lemma_interned_all_valid(v, later);
    if slot(v, s) is Some {
        lemma_slot_stable(v, interned_all(v, later), s);
    }
}

/// Each distinct string is held once.
pub proof fn law_each_string_is_held_once(v: Seq<Seq<char>>)
    requires
        valid_contents(v),
    ensures
        v.no_duplicates(),
{
    assert forall|i: int, j: int| 0 <= i < v.len() && 0 <= j < v.len() && i != j implies v[i]
        != v[j] by {
        law_text_at_an_index_is_found_there(v, i);
        law_text_at_an_index_is_found_there(v, j);
    }
}

/// The string at an index is found at that index.
pub proof fn law_text_at_an_index_is_found_there(v: Seq<Seq<char>>, i: int)
    requires
        valid_contents(v),
        0 <= i < v.len(),
    ensures
        slot(v, v[i]) == Some(i),
{
    if i < LATIN1_NUM {
        assert(v[i] == latin1(i));
        assert(i > 0 ==> (i as u32 as char) as u32 as int == i);
    } else {
        assert(is_filed_at(v, v[i], i));
        lemma_slot_is(v, v[i], i);
    }
}

/// The empty string is at index 0 and each other ISO-8859-1 character at its code, before and
/// after any insertion; inserting them stores nothing.
pub proof fn law_latin1_is_reserved(v: Seq<Seq<char>>, i: int)
    requires
        valid_contents(v),
        0 <= i < LATIN1_NUM,
    ensures
        v[i] == latin1(i),
        slot(v, latin1(i)) == Some(i),
        interned(v, latin1(i)) == v,
{
    assert(v[i] == latin1(i));
    law_text_at_an_index_is_found_there(v, i);
}

/// The first string that is inserted into a new store, other than a reserved one, gets the
/// first index after the reserved ones.
pub proof fn law_first_index_after_reserved(s: Seq<char>)
    requires
        reserved_index(s) is None,
    ensures
        valid_contents(initial_contents()),
        interned(initial_contents(), s) == initial_contents().push(s),
        slot(interned(initial_contents(), s), s) == Some(LATIN1_NUM as int),
{
    let v = initial_contents();
    assert forall|i: int| !is_filed_at(v, s, i) by {}
    lemma_interned(v, s);
}

/// Where no other string has its hash, a string is found exactly if it is held.
pub proof fn law_found_iff_held(v: Seq<Seq<char>>, s: Seq<char>)
    requires
        valid_contents(v),
        !collides(v, s),
        s != nul(),
    ensures
        slot(v, s) is Some <==> v.contains(s),
{
    if slot(v, s) is Some {
        law_found_text_stands_at_its_index(v, s);
    }
    if v.contains(s) {
        let i = choose|i: int| 0 <= i < v.len() && v[i] == s;
        law_text_at_an_index_is_found_there(v, i);
    }
}

/// No two strings that were inserted share a hash, so a string that was inserted never
/// collides.
pub proof fn law_held_strings_do_not_collide(v: Seq<Seq<char>>, i: int)
    requires
        valid_contents(v),
        0 <= i < v.len(),
    ensures
        !collides(v, v[i]),
{
    if collides(v, v[i]) {
        let k = choose|k: int| #[trigger] is_filed_at(v, v[i], k) && v[k] != v[i];
        law_text_at_an_index_is_found_there(v, i);
        lemma_slot_is(v, v[i], k);
    }
}

/// After a list of strings was inserted, each one chosen from it stands at its index, unless it
/// shares the index of the empty string.
pub proof fn lemma_parts_stand_at_their_indices(
    v: Seq<Seq<char>>,
    parts: Seq<Seq<char>>,
    indices: Seq<u32>,
    chosen: Seq<Seq<char>>,
)
    requires
        valid_contents(v),
        apart(v, parts),
        interned_all(v, parts).len() <= max_len(),
        are_slots(interned_all(v, parts), chosen, indices),
        forall|n: int| 0 <= n < chosen.len() ==> parts.contains(#[trigger] chosen[n]),
    ensures
        forall|n: int|
            0 <= n < chosen.len() && chosen[n] != nul() ==> interned_all(
                v,
                parts,
            )[#[trigger] indices[n] as int] == chosen[n],
{
    let w = interned_all(v, parts);
    lemma_interned_all_valid(v, parts);
    assert forall|n: int| 0 <= n < chosen.len() && chosen[n] != nul() implies w[
        #[trigger] indices[n] as int
    ] == chosen[n] by {
        let s = chosen[n];
        let all = v + parts;
        assert(slot(w, s) == Some(indices[n] as int));
        if collides(w, s) {
            let k = choose|k: int| 0 <= k < parts.len() && parts[k] == s;
            let i = choose|i: int| #[trigger] is_filed_at(w, s, i) && w[i] != s;
            assert(all[v.len() + k] == s);
            lemma_interned_all_texts(v, parts, i);
            if v.contains(w[i]) {
                let m = choose|m: int| 0 <= m < v.len() && v[m] == w[i];
                assert(all[m] == w[i]);
            } else {
                let m = choose|m: int| 0 <= m < parts.len() && parts[m] == w[i];
                assert(all[v.len() + m] == w[i]);
            }
            assert(false);
        }
        law_found_text_stands_at_its_index(w, s);
    }
}

/// What a reconstruction gives where all indices are good and the texts at them are `parts`.
proof fn lemma_reconstruction(
    w: Seq<Seq<char>>,
    parts: Seq<Seq<char>>,
    indices: Seq<u32>,
    delim: u32,
    result: StringStoreResult<String>,
)
    requires
        valid_contents(w),
        0 < parts.len() <= u32::MAX,
        indices.len() == parts.len(),
        forall|n: int|
            0 <= n < parts.len() ==> (#[trigger] indices[n]) < w.len() && w[indices[n] as int]
                == parts[n],
        delim < w.len(),
        is_reconstruction(w, indices, delim, result),
    ensures
        result is Ok,
        result->Ok_0@ == join(parts, w[delim as int]),
{
    assert(texts_at(w, indices) =~= parts);
    assert forall|pos: int| !is_first_bad(w, indices, pos) by {
        if 0 <= pos < indices.len() {
            assert(indices[pos] < w.len());
        }
    }
    if is_blank(indices) {
        assert(w[indices[0] as int] == parts[0]);
        assert(w[0] == latin1(0));
    }
}

/// Reconstructing from the indices that splitting returned gives the string back. Only a part
/// that is the character with code 0, or that character as a delimiter that occurs, is lost.
pub proof fn law_reconstruct_undoes_split_and_store(
    v: Seq<Seq<char>>,
    t: Seq<char>,
    d: Seq<char>,
    indices: Seq<u32>,
    delim: u32,
    result: StringStoreResult<String>,
)
    requires
        valid_contents(v),
        apart(v, split_texts(t, d)),
        interned_all(v, split_texts(t, d)).len() <= max_len(),
        are_slots(interned_all(v, split_texts(t, d)), parts_of(t, d), indices),
        are_slots(interned_all(v, split_texts(t, d)), seq![d], seq![delim]),
        is_reconstruction(interned_all(v, split_texts(t, d)), indices, delim, result),
        parts_of(t, d).len() <= u32::MAX,
        !parts_of(t, d).contains(nul()),
        parts_of(t, d).len() > 1 ==> d != nul(),
    ensures
        result is Ok,
        result->Ok_0@ == t,
{
    law_reconstruct_later_undoes_split_and_store(v, t, d, indices, delim, seq![], result);
}

/// Reconstructing from the indices that splitting returned gives the string back after any later
/// insertions too.
pub proof fn law_reconstruct_later_undoes_split_and_store(
    v: Seq<Seq<char>>,
    t: Seq<char>,
    d: Seq<char>,
    indices: Seq<u32>,
    delim: u32,
    later: Seq<Seq<char>>,
    result: StringStoreResult<String>,
)
    requires
        valid_contents(v),
        apart(v, split_texts(t, d)),
        are_slots(interned_all(v, split_texts(t, d)), parts_of(t, d), indices),
        are_slots(interned_all(v, split_texts(t, d)), seq![d], seq![delim]),
        interned_all(interned_all(v, split_texts(t, d)), later).len() <= max_len(),
        is_reconstruction(
            interned_all(interned_all(v, split_texts(t, d)), later),
            indices,
            delim,
            result,
        ),
        parts_of(t, d).len() <= u32::MAX,
        !parts_of(t, d).contains(nul()),
        parts_of(t, d).len() > 1 ==> d != nul(),
    ensures
        result is Ok,
        result->Ok_0@ == t,
{
    let list = split_texts(t, d);
    let parts = parts_of(t, d);
    let w = interned_all(v, list);
    let u = interned_all(w, later);
    assert forall|n: int| 0 <= n < parts.len() implies list.contains(#[trigger] parts[n]) by {
        assert(list[n + 1] == parts[n]);
    }
    assert(list[0] == d);
    assert forall|n: int| 0 <= n < seq![d].len() implies list.contains(#[trigger] seq![d][n]) by {}
    lemma_interned_all_prefix(w, later);
    lemma_interned_all_valid(v, list);
    lemma_interned_all_valid(w, later);
    lemma_parts_stand_at_their_indices(v, list, indices, parts);
    lemma_parts_stand_at_their_indices(v, list, seq![delim], seq![d]);
    assert(seq![delim][0] == delim);
    law_join_undoes_split(t, d);
    assert(join(parts, d) == t);
    assert forall|n: int| 0 <= n < parts.len() implies (#[trigger] indices[n]) < u.len()
        && u[indices[n] as int] == parts[n] by {
        assert(parts.contains(parts[n]));
    }
    lemma_reconstruction(u, parts, indices, delim, result);
    if parts.len() == 1 {
        assert(join(parts, u[delim as int]) == parts[0]);
    }
}

/// Reconstructing a path from the indices of its segments, with the index of the separator,
/// gives the path back. Only a segment that is the character with code 0 is lost.
pub proof fn law_reconstruct_undoes_store_path(
    v: Seq<Seq<char>>,
    path: Seq<char>,
    indices: Seq<u32>,
    delim: u32,
    result: StringStoreResult<String>,
)
    requires
        valid_contents(v),
        apart(v, parts_of(path, PATH_SEP@)),
        interned_all(v, parts_of(path, PATH_SEP@)).len() <= max_len(),
        are_slots(interned_all(v, parts_of(path, PATH_SEP@)), parts_of(path, PATH_SEP@), indices),
        slot(interned_all(v, parts_of(path, PATH_SEP@)), PATH_SEP@) == Some(delim as int),
        is_reconstruction(interned_all(v, parts_of(path, PATH_SEP@)), indices, delim, result),
        parts_of(path, PATH_SEP@).len() <= u32::MAX,
        !parts_of(path, PATH_SEP@).contains(nul()),
    ensures
        result is Ok,
        result->Ok_0@ == path,
{
    law_reconstruct_later_undoes_store_path(v, path, indices, delim, seq![], result);
}

/// Reconstructing a path from the indices of its segments gives the path back after any later
/// insertions too.
pub proof fn law_reconstruct_later_undoes_store_path(
    v: Seq<Seq<char>>,
    path: Seq<char>,
    indices: Seq<u32>,
    delim: u32,
    later: Seq<Seq<char>>,
    result: StringStoreResult<String>,
)
    requires
        valid_contents(v),
        apart(v, parts_of(path, PATH_SEP@)),
        are_slots(interned_all(v, parts_of(path, PATH_SEP@)), parts_of(path, PATH_SEP@), indices),
        interned_all(interned_all(v, parts_of(path, PATH_SEP@)), later).len() <= max_len(),
        slot(interned_all(interned_all(v, parts_of(path, PATH_SEP@)), later), PATH_SEP@) == Some(
            delim as int,
        ),
        is_reconstruction(
            interned_all(interned_all(v, parts_of(path, PATH_SEP@)), later),
            indices,
            delim,
            result,
        ),
        parts_of(path, PATH_SEP@).len() <= u32::MAX,
        !parts_of(path, PATH_SEP@).contains(nul()),
    ensures
        result is Ok,
        result->Ok_0@ == path,
{
    let d = PATH_SEP@;
    let parts = parts_of(path, d);
    let w = interned_all(v, parts);
    let u = interned_all(w, later);
    reveal_strlit("/");
    assert(d =~= seq!['/']);
    lemma_interned_all_prefix(w, later);
    lemma_interned_all_valid(v, parts);
    lemma_interned_all_valid(w, later);
    assert forall|n: int| 0 <= n < parts.len() implies parts.contains(#[trigger] parts[n]) by {}
    lemma_parts_stand_at_their_indices(v, parts, indices, parts);
    law_latin1_is_reserved(u, 47);
    assert(latin1(47) =~= d);
    law_join_undoes_split(path, d);
    assert forall|n: int| 0 <= n < parts.len() implies (#[trigger] indices[n]) < u.len()
        && u[indices[n] as int] == parts[n] by {
        assert(parts.contains(parts[n]));
    }
    lemma_reconstruction(u, parts, indices, delim, result);
}

/// Among the indices of the parts of a split string, 0 marks an empty part, or one that is the
/// character with code 0.
pub proof fn law_zero_marks_an_empty_part(
    v: Seq<Seq<char>>,
    parts: Seq<Seq<char>>,
    indices: Seq<u32>,
    n: int,
)
    requires
        valid_contents(v),
        are_slots(v, parts, indices),
        0 <= n < parts.len(),
    ensures
        indices[n] == 0 <==> parts[n].len() == 0 || parts[n] == nul(),
{
    let s = parts[n];
    assert(slot(v, s) == Some(indices[n] as int));
    if reserved_index(s) is None {
        let i = choose|i: int| is_filed_at(v, s, i);
        assert(is_filed_at(v, s, i));
    } else if s.len() == 1 {
        lemma_char_of_code(s[0]);
        assert(s =~= seq![s[0]]);
    }
}

/// Several indices of which the first is 0 mean that the path is absolute. The root path gives
/// two zeros, the empty path a single one. (No segment is the character with code 0.)
pub proof fn law_leading_zero_marks_an_absolute_path(
    v: Seq<Seq<char>>,
    path: Seq<char>,
    indices: Seq<u32>,
)
    requires
        valid_contents(v),
        are_slots(v, parts_of(path, PATH_SEP@), indices),
        !parts_of(path, PATH_SEP@).contains(nul()),
    ensures
        indices.len() > 1 && indices[0] == 0 <==> path.len() > 0 && path[0] == '/',
        path == seq!['/'] ==> indices == seq![0u32, 0u32],
        path.len() == 0 ==> indices == seq![0u32],
{
    let d = PATH_SEP@;
    let parts = parts_of(path, d);
    reveal_strlit("/");
    assert(d =~= seq!['/']);
    law_join_undoes_split(path, d);
    law_zero_marks_an_empty_part(v, parts, indices, 0);
    assert(parts.contains(parts[0]));
    if path.len() > 0 {
        law_empty_parts_mark_delimiters(path, d, 0);
        assert(path.subrange(0, 0int + d.len()) =~= seq![path[0]]);
        assert(seq![path[0]] == d <==> path[0] == '/') by {
            assert(seq![path[0]][0] == path[0] && d[0] == '/');
        }
        assert(occurs_at(path, d, 0) <==> path[0] == '/');
        if parts.len() == 1 {
            assert(join(parts, d) == parts[0]);
        }
    }
    if path == seq!['/'] {
        assert(split_from(path, d, 1, 1) =~= seq![path.subrange(1, 1)]);
        assert(parts =~= seq![path.subrange(0, 0)] + seq![path.subrange(1, 1)]);
        law_zero_marks_an_empty_part(v, parts, indices, 1);
        assert(indices =~= seq![0u32, 0u32]);
    }
    if path.len() == 0 {
        assert(indices =~= seq![0u32]);
    }
}

/// The strings at the indices of the tokens of a split string, written one after the other,
/// give the string back. Only a token that is the character with code 0 is lost.
pub proof fn law_token_indices_spell_the_string(
    v: Seq<Seq<char>>,
    t: Seq<char>,
    delims: Seq<Seq<char>>,
    indices: Seq<u32>,
)
    requires
        valid_contents(v),
        apart(v, multi_texts(t, delims)),
        interned_all(v, multi_texts(t, delims)).len() <= max_len(),
        are_slots(interned_all(v, multi_texts(t, delims)), multi_parts_of(t, delims), indices),
        !multi_parts_of(t, delims).contains(nul()),
    ensures
        join(texts_at(interned_all(v, multi_texts(t, delims)), indices), seq![]) == t,
{
    law_token_indices_spell_the_string_later(v, t, delims, indices, seq![]);
}

/// The strings at the indices of the tokens of a split string spell the string after any later
/// insertions too.
pub proof fn law_token_indices_spell_the_string_later(
    v: Seq<Seq<char>>,
    t: Seq<char>,
    delims: Seq<Seq<char>>,
    indices: Seq<u32>,
    later: Seq<Seq<char>>,
)
    requires
        valid_contents(v),
        apart(v, multi_texts(t, delims)),
        are_slots(interned_all(v, multi_texts(t, delims)), multi_parts_of(t, delims), indices),
        interned_all(interned_all(v, multi_texts(t, delims)), later).len() <= max_len(),
        !multi_parts_of(t, delims).contains(nul()),
    ensures
        join(
            texts_at(interned_all(interned_all(v, multi_texts(t, delims)), later), indices),
            seq![],
        ) == t,
{
    let list = multi_texts(t, delims);
    let parts = multi_parts_of(t, delims);
    let w = interned_all(v, list);
    let u = interned_all(w, later);
    assert forall|n: int| 0 <= n < parts.len() implies list.contains(#[trigger] parts[n]) by {
        assert(list[delims.len() + n] == parts[n]);
    }
    lemma_interned_all_prefix(w, later);
    lemma_parts_stand_at_their_indices(v, list, indices, parts);
    assert forall|n: int| 0 <= n < parts.len() implies u[#[trigger] indices[n] as int]
        == parts[n] by {
        assert(parts.contains(parts[n]));
    }
    assert(texts_at(u, indices) =~= parts);
    law_tokens_spell_the_text(t, delims);
}

/// The indices of a split string tell which delimiter stands where: where a token is a
/// delimiter, its index is the one returned for that delimiter.
pub proof fn law_delimiters_keep_their_indices(
    v: Seq<Seq<char>>,
    t: Seq<char>,
    delims: Seq<Seq<char>>,
    indices: Seq<u32>,
    delim_indices: Seq<u32>,
    n: int,
)
    requires
        t.len() > 0,
        delims.len() > 0,
        are_slots(v, multi_parts_of(t, delims), indices),
        are_slots(v, delims, delim_indices),
        0 <= n < tokens_of(t, delims).len(),
        tokens_of(t, delims)[n].is_delim,
    ensures
        tokens_of(t, delims)[n].delim_idx is Some,
        indices[n] == delim_indices[tokens_of(t, delims)[n].delim_idx->0],
{
    law_token_kinds(t, delims, n);
    let k = tokens_of(t, delims)[n].delim_idx->0;
    assert(multi_parts_of(t, delims)[n] == delims[k]);
    assert(slot(v, delims[k]) == Some(delim_indices[k] as int));
    assert(slot(v, delims[k]) == Some(indices[n] as int));
}

} // verus!
