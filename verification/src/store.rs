//! The string store.
use crate::contents::{
    apart, are_slots, collides, extends, initial_contents, interned, interned_all, is_filed_at,
    latin1, lemma_apart_concat, lemma_apart_push, lemma_apart_step, lemma_extends,
    lemma_found_stays, lemma_interned, lemma_interned_all_concat, lemma_interned_all_found,
    lemma_interned_all_prefix, lemma_interned_all_push, lemma_interned_all_take,
    lemma_interned_all_texts, lemma_slot_is, lemma_slot_stable, max_len, nul, reserved_index, slot,
    text_hash, valid_contents, LATIN1_NUM,
};
use crate::error::{StringStoreError, StringStoreResult};
use crate::handles::{StoredStr, StoredStrPtr};
use crate::index::{
    entries_of, hash_bytes, index_capacity, index_get, index_get_or_insert, index_len,
    index_with_capacity, is_listing, ContentIndex,
};
use crate::laws::law_get_returns_what_was_inserted;
use crate::regex_token::tokenize_regex;
use crate::split::{join, shared_views, split, split_parts, string_views};
use crate::token::{contents_of, texts, token_views, tokenize, tokens_of};
use crate::validate::{agree, all_errors, find_errors, law_no_errors_iff_agreement};
use std::sync::Arc;
use vstd::prelude::*;

verus! {

/// A store of unique strings with stable indices.
///
/// Each distinct string is held once. The first [`LATIN1_NUM`] indices belong to the empty
/// string and the ISO-8859-1 characters; every other string gets the next free index when it is
/// inserted, and keeps it.
#[derive(Debug)]
pub struct UniqueStrStore {
    store: Vec<Arc<String>>,
    index: ContentIndex,
    ascii: Vec<Arc<String>>,
    len: usize,
}

impl View for UniqueStrStore {
    type V = Seq<Seq<char>>;

    closed spec fn view(&self) -> Seq<Seq<char>> {
        initial_contents() + shared_views(self.store@)
    }
}

/// The code of the first character of a non-empty text, if it is an ISO-8859-1 one.
pub open spec fn first_latin1(s: Seq<char>) -> Option<u32> {
    if (s[0] as u32) < LATIN1_NUM {
        Some(s[0] as u32)
    } else {
        None
    }
}

/// The code of the first character of a string, if it is an ISO-8859-1 one.
pub fn return_iso8859_1_cp(s: &str) -> (code: Option<u32>)
    requires
        s@.len() > 0,
    ensures
        code == first_latin1(s@),
{
    let mut chars = s.chars();
    let c: u32 = chars.next().unwrap() as u32;
    if c < LATIN1_NUM {
        return Some(c);
    }
    None
}

/// The reserved index of a string, if it has one.
fn reserved(s: &str) -> (index: Option<u32>)
    ensures
        match index {
            Some(i) => reserved_index(s@) == Some(i as int) && i < LATIN1_NUM,
            None => reserved_index(s@) is None,
        },
{
    if s.is_empty() {
        return Some(0);
    }
    let mut chars = s.chars();
    chars.next();
    if chars.next().is_none() {
        assert(s@.drop_first().len() == 0);
        return_iso8859_1_cp(s)
    } else {
        None
    }
}

impl Default for UniqueStrStore {
    /// A new store, as [`UniqueStrStore::new`] makes it.
    fn default() -> (store: Self)
        ensures
            store.wf(),
            store@ == initial_contents(),
    {
        Self::new()
    }
}

impl UniqueStrStore {
    /// Whether the parts of the store agree with each other.
    pub closed spec fn consistent(&self) -> bool {
        let entries = entries_of(self.index);
        &&& self.ascii@.len() == LATIN1_NUM
        &&& forall|i: int| 0 <= i < LATIN1_NUM ==> (#[trigger] self.ascii@[i])@ == latin1(i)
        &&& self.len == self.store@.len() + LATIN1_NUM
        &&& entries.dom().finite()
        &&& entries.len() == self.store@.len()
        &&& forall|key: u64| #[trigger]
            entries.contains_key(key) ==> entries[key] < self.store@.len() && text_hash(
                self.store@[entries[key] as int]@,
            ) == key
        &&& forall|i: int|
            0 <= i < self.store@.len() ==> entries.contains_key(
                text_hash((#[trigger] self.store@[i])@),
            ) && entries[text_hash(self.store@[i]@)] == i
    }

    /// What holds of every store.
    pub open spec fn wf(&self) -> bool {
        self.consistent() && valid_contents(self@)
    }

    /// Create a new store with a default capacity of 128.
    pub fn new() -> (store: Self)
        ensures
            store.wf(),
            store@ == initial_contents(),
    {
        Self::new_with_capacity(128)
    }

    /// Create a new store with room for `capacity` strings before it has to grow. What the store
    /// holds is the same for every capacity; how much room was allocated is left unsaid.
    pub fn new_with_capacity(capacity: usize) -> (store: Self)
        requires
            capacity <= usize::MAX / 128,
        ensures
            store.wf(),
            store@ == initial_contents(),
    {
        let mut ascii: Vec<Arc<String>> = Vec::new();
        ascii.push(Arc::new(String::new()));
        let mut i: u32 = 1;
        while i < LATIN1_NUM
            invariant
                1 <= i <= LATIN1_NUM,
                ascii@.len() == i,
                forall|j: int| 0 <= j < i ==> (#[trigger] ascii@[j])@ == latin1(j),
            decreases LATIN1_NUM - i,
        {
            let mut text = String::new();
            text.push((i as u8) as char);
            ascii.push(Arc::new(text));
            i += 1;
        }
        let store = UniqueStrStore {
            store: Vec::with_capacity(capacity),
            index: index_with_capacity(capacity),
            ascii,
            len: LATIN1_NUM as usize,
        };
        assert(store@ =~= initial_contents());
        assert(entries_of(store.index).dom() =~= Set::empty());
        store
    }

    /// The number of strings, the reserved ones included.
    pub fn len(&self) -> (count: usize)
        requires
            self.wf(),
        ensures
            count == self@.len(),
    {
        self.len
    }

    /// The position in `store` of the string with the hash of `s`.
    fn filed(&self, s: &str) -> (position: Option<u32>)
        requires
            self.wf(),
            reserved_index(s@) is None,
        ensures
            match position {
                Some(i) => slot(self@, s@) == Some(i + LATIN1_NUM) && i < self.store@.len(),
                None => slot(self@, s@) is None,
            },
    {
        let position = index_get(&self.index, hash_bytes(s.as_bytes()));
        proof {
            match position {
                Some(i) => {
                    assert(self@[i + LATIN1_NUM] == self.store@[i as int]@);
                    assert(is_filed_at(self@, s@, i + LATIN1_NUM));
                    lemma_slot_is(self@, s@, i + LATIN1_NUM);
                },
                None => {
                    assert forall|i: int| !is_filed_at(self@, s@, i) by {
                        if LATIN1_NUM <= i < self@.len() {
                            assert(self@[i] == self.store@[i - LATIN1_NUM]@);
                        }
                    }
                },
            }
        }
        position
    }

    /// Whether the string is found in the store. A string that was never inserted is found too
    /// where its hash is that of another one.
    pub fn contains(&self, s: &str) -> (found: bool)
        requires
            self.wf(),
        ensures
            found == (slot(self@, s@) is Some),
    {
        if reserved(s).is_some() {
            return true;
        }
        self.filed(s).is_some()
    }

    /// Get the index of a stored string by its content, if it is found.
    pub fn idx(&self, s: &str) -> (index: Option<u32>)
        requires
            self.wf(),
        ensures
            match index {
                Some(i) => slot(self@, s@) == Some(i as int) && i < self@.len(),
                None => slot(self@, s@) is None,
            },
    {
        if let Some(i) = reserved(s) {
            return Some(i);
        }
        match self.filed(s) {
            Some(i) => Some(i + LATIN1_NUM),
            None => None,
        }
    }

    /// Borrow the string at an index.
    pub fn borrow_str(&self, idx: u32) -> (text: &str)
        requires
            self.wf(),
            idx < self@.len(),
        ensures
            text@ == self@[idx as int],
    {
        self.shared_str(idx).as_str()
    }

    /// The string at an index, as the store holds it.
    fn shared_str(&self, idx: u32) -> (text: &Arc<String>)
        requires
            self.wf(),
            idx < self@.len(),
        ensures
            text@ == self@[idx as int],
    {
        if idx < LATIN1_NUM {
            &self.ascii[idx as usize]
        } else {
            &self.store[(idx - LATIN1_NUM) as usize]
        }
    }

    /// Borrow the string at an index, as [`UniqueStrStore::borrow_str`] does.
    pub fn get_raw(&self, idx: u32) -> (text: &str)
        requires
            self.wf(),
            idx < self@.len(),
        ensures
            text@ == self@[idx as int],
    {
        self.borrow_str(idx)
    }

    /// Get the string at an index, if there is one.
    pub fn get(&self, idx: u32) -> (result: StringStoreResult<&str>)
        requires
            self.wf(),
        ensures
            match result {
                Ok(text) => idx < self@.len() && text@ == self@[idx as int],
                Err(error) => idx >= self@.len() && error == (StringStoreError::IndexOutOfBounds {
                    idx,
                    max: (self@.len() - 1) as usize,
                }),
            },
    {
        let len: usize = self.len();
        if idx as usize >= len {
            return Err(StringStoreError::oob(idx, len - 1));
        }
        Ok(self.borrow_str(idx))
    }

    /// Whether there is no room for another string.
    fn is_full(&self) -> (full: bool)
        requires
            self.wf(),
        ensures
            full == (self@.len() >= max_len()),
    {
        self.store.len() as u64 >= 0xffff_ff00u64 || self.len == usize::MAX
    }

    /// Insert an unreserved string whose lookup failed.
    ///
    /// The index is consulted once more, so that a string that was inserted since then is not
    /// inserted twice.
    pub fn insert_unchecked(&mut self, s: &str) -> (result: StringStoreResult<u32>)
        requires
            old(self).wf(),
            reserved_index(s@) is None,
            !collides(old(self)@, s@),
        ensures
            final(self).wf(),
            extends(old(self)@, final(self)@),
            match result {
                Ok(i) => {
                    &&& old(self)@.len() < max_len()
                    &&& final(self)@ == interned(old(self)@, s@)
                    &&& slot(final(self)@, s@) == Some(i as int)
                    &&& i < final(self)@.len()
                },
                Err(error) => {
                    &&& old(self)@.len() >= max_len()
                    &&& error is StoreFull
                    &&& *final(self) == *old(self)
                },
            },
    {
        if self.is_full() {
            return Err(StringStoreError::StoreFull);
        }
        let key: u64 = hash_bytes(s.as_bytes());
        let next: u32 = self.store.len() as u32;
        let filed: u32 = index_get_or_insert(&mut self.index, key, next);
        if filed == next {
            self.store.push(Arc::new(String::from(s)));
            self.len += 1;
        }
        proof {
            let (v, w) = (old(self)@, self@);
            let entries = entries_of(old(self).index);
            lemma_interned(v, s@);
            if entries.contains_key(key) {
                assert(old(self).store@[filed as int]@ == v[filed + LATIN1_NUM]);
                assert(is_filed_at(v, s@, filed + LATIN1_NUM));
                lemma_slot_is(v, s@, filed + LATIN1_NUM);
            } else {
                assert forall|i: int| !is_filed_at(v, s@, i) by {
                    if LATIN1_NUM <= i < v.len() {
                        assert(v[i] == old(self).store@[i - LATIN1_NUM]@);
                    }
                }
                assert(w =~= v.push(s@));
                assert forall|k: u64| #[trigger] entries_of(self.index).contains_key(k) implies {
                    &&& entries_of(self.index)[k] < self.store@.len()
                    &&& text_hash(self.store@[entries_of(self.index)[k] as int]@) == k
                } by {
                    if k != key {
                        assert(entries.contains_key(k));
                    }
                }
                assert forall|i: int| 0 <= i < self.store@.len() implies entries_of(
                    self.index,
                ).contains_key(text_hash((#[trigger] self.store@[i])@)) && entries_of(
                    self.index,
                )[text_hash(self.store@[i]@)] == i by {
                    if i < old(self).store@.len() {
                        assert(self.store@[i] == old(self).store@[i]);
                    }
                }
            }
            lemma_extends(v, w);
        }
        Ok(filed + LATIN1_NUM)
    }

    /// Insert a string, if it doesn't already exist. Returns the index in either case, or an
    /// error where the string is new and the store full.
    pub fn try_insert(&mut self, s: &str) -> (result: StringStoreResult<u32>)
        requires
            old(self).wf(),
            !collides(old(self)@, s@),
        ensures
            final(self).wf(),
            extends(old(self)@, final(self)@),
            match result {
                Ok(i) => {
                    &&& slot(old(self)@, s@) is Some || old(self)@.len() < max_len()
                    &&& final(self)@ == interned(old(self)@, s@)
                    &&& slot(final(self)@, s@) == Some(i as int)
                    &&& i < final(self)@.len()
                },
                Err(error) => {
                    &&& slot(old(self)@, s@) is None && old(self)@.len() >= max_len()
                    &&& error is StoreFull
                    &&& *final(self) == *old(self)
                },
            },
    {
        match self.idx(s) {
            Some(i) => Ok(i),
            None => self.insert_unchecked(s),
        }
    }

    /// Insert a string, if it doesn't already exist. Returns the index in either case.
    pub fn insert(&mut self, s: &str) -> (idx: u32)
        requires
            old(self).wf(),
            !collides(old(self)@, s@),
            interned(old(self)@, s@).len() <= max_len(),
        ensures
            final(self).wf(),
            extends(old(self)@, final(self)@),
            final(self)@ == interned(old(self)@, s@),
            slot(final(self)@, s@) == Some(idx as int),
            idx < final(self)@.len(),
    {
        match self.try_insert(s) {
            Ok(i) => i,
            Err(_) => {
                assert(false);
                0
            },
        }
    }

    /// The handle of a stored string, if it is found.
    pub fn get_ref(&self, s: &str) -> (handle: Option<StoredStr<'_>>)
        requires
            self.wf(),
        ensures
            match handle {
                Some(h) => {
                    &&& slot(self@, s@) == Some(h.index() as int)
                    &&& h.origin() == *self
                    &&& h@ == self@[h.index() as int]
                },
                None => slot(self@, s@) is None,
            },
    {
        match self.idx(s) {
            Some(i) => Some(StoredStr::new(i, self)),
            None => None,
        }
    }

    /// Insert a string and return its handle. If the string is stored already, its handle is
    /// returned instead. (The handle of the character with code 0 is that of the empty string.)
    pub fn insert_or_get(&mut self, s: &str) -> (handle: StoredStr<'_>)
        requires
            old(self).wf(),
            !collides(old(self)@, s@),
            interned(old(self)@, s@).len() <= max_len(),
        ensures
            final(self).wf(),
            extends(old(self)@, final(self)@),
            final(self)@ == interned(old(self)@, s@),
            slot(final(self)@, s@) == Some(handle.index() as int),
            handle.origin() == *final(self),
            handle@ == final(self)@[handle.index() as int],
            s@ != nul() ==> handle@ == s@,
    {
        proof {
            if s@ != nul() {
                law_get_returns_what_was_inserted(self@, s@);
            }
        }
        let i: u32 = self.insert(s);
        StoredStr::new(i, self)
    }

    /// Get a pointer to the string at an index. The pointer does not borrow the store: it keeps
    /// pointing to the string while the store grows.
    pub fn get_ptr(&self, idx: u32) -> (ptr: StoredStrPtr)
        requires
            self.wf(),
            idx < self@.len(),
        ensures
            ptr@ == self@[idx as int],
    {
        StoredStrPtr::new(self.shared_str(idx).clone())
    }

    /// Put this store into an [`Arc`].
    pub fn shared(self) -> (shared: Arc<Self>)
        ensures
            *shared == self,
    {
        Arc::new(self)
    }

    /// Store the parts in their order and return their indices.
    fn store_parts(&mut self, parts: &Vec<String>) -> (indices: Vec<u32>)
        requires
            old(self).wf(),
            apart(old(self)@, string_views(parts@)),
            interned_all(old(self)@, string_views(parts@)).len() <= max_len(),
        ensures
            final(self).wf(),
            extends(old(self)@, final(self)@),
            final(self)@ == interned_all(old(self)@, string_views(parts@)),
            are_slots(final(self)@, string_views(parts@), indices@),
    {
        let ghost v = self@;
        let ghost ps = string_views(parts@);
        let mut indices: Vec<u32> = Vec::new();
        let mut n: usize = 0;
        assert(ps.take(0) =~= seq![]);
        while n < parts.len()
            invariant
                n <= parts@.len(),
                ps == string_views(parts@),
                self.wf(),
                valid_contents(v),
                apart(v, ps),
                interned_all(v, ps).len() <= max_len(),
                self@ == interned_all(v, ps.take(n as int)),
                are_slots(self@, ps.take(n as int), indices@),
            decreases parts@.len() - n,
        {
            let ghost before = self@;
            proof {
                lemma_apart_step(v, ps, n as int);
                assert(ps.take(n + 1) =~= ps.take(n as int).push(ps[n as int]));
                lemma_interned_all_push(v, ps.take(n as int), ps[n as int]);
                lemma_interned_all_take(v, ps, n + 1);
            }
            let ghost had = indices@;
            let i: u32 = self.insert(parts[n].as_str());
            indices.push(i);
            proof {
                assert forall|m: int| 0 <= m < n + 1 implies slot(self@, ps.take(n + 1)[m])
                    == Some(#[trigger] indices@[m] as int) && indices@[m] < self@.len() by {
                    if m < n {
                        lemma_interned(before, ps[n as int]);
                        assert(had[m] == indices@[m]);
                        assert(ps.take(n as int)[m] == ps.take(n + 1)[m]);
                        lemma_slot_stable(before, self@, ps[m]);
                    }
                }
            }
            n += 1;
        }
        assert(ps.take(n as int) =~= ps);
        proof {
            lemma_interned_all_prefix(v, ps);
            lemma_extends(v, self@);
        }
        indices
    }

    /// Whether all of `parts` can be inserted, in their order: no two different strings among
    /// them and those stored share a hash, and there is room for the new ones.
    pub fn admits(&self, parts: &Vec<String>) -> (admitted: bool)
        requires
            self.wf(),
        ensures
            admitted == (apart(self@, string_views(parts@)) && interned_all(
                self@,
                string_views(parts@),
            ).len() <= max_len()),
    {
        let ghost v = self@;
        let ghost ps = string_views(parts@);
        let mut hashes: Vec<u64> = Vec::new();
        let mut fresh: usize = 0;
        let mut n: usize = 0;
        assert(ps.take(0) =~= seq![]);
        assert(v + ps.take(0) =~= v);
        assert(apart(v, ps.take(0))) by {
            assert forall|i: int| 0 <= i < v.len() && reserved_index(
                #[trigger] v[i],
            ) is None implies i >= LATIN1_NUM by {
                if i < LATIN1_NUM {
                    assert(v[i] == latin1(i));
                }
            }
        }
        while n < parts.len()
            invariant
                n <= parts@.len(),
                fresh <= n,
                v == self@,
                self.wf(),
                ps == string_views(parts@),
                hashes@.len() == n,
                forall|j: int| 0 <= j < n ==> #[trigger] hashes@[j] == text_hash(ps[j]),
                apart(v, ps.take(n as int)),
                interned_all(v, ps.take(n as int)).len() == v.len() + fresh,
            decreases parts@.len() - n,
        {
            let part = parts[n].as_str();
            let hash: u64 = hash_bytes(part.as_bytes());
            let ghost p = ps[n as int];
            let ghost had = ps.take(n as int);
            let ghost w = interned_all(v, had);
            proof {
                assert(ps.take(n + 1) =~= had.push(p));
                lemma_interned_all_push(v, had, p);
                lemma_interned_all_prefix(v, had);
                lemma_apart_push(v, had, p);
            }
            if reserved(part).is_none() {
                match self.filed(part) {
                    Some(i) => {
                        let ghost k = i + LATIN1_NUM;
                        assert(v[k] == self.store@[i as int]@);
                        proof {
                            lemma_found_stays(v, w, p);
                        }
                        if *self.store[i as usize].as_str() != *part {
                            assert((v + ps)[k] == v[k]);
                            assert((v + ps)[v.len() + n] == p);
                            return false;
                        }
                        assert((v + had)[k] == p);
                    },
                    None => {
                        let mut j: usize = 0;
                        while j < n && (hashes[j] != hash || reserved(parts[j].as_str()).is_some())
                            invariant
                                j <= n < parts@.len(),
                                ps == string_views(parts@),
                                hashes@.len() == n,
                                forall|m: int|
                                    0 <= m < n ==> #[trigger] hashes@[m] == text_hash(ps[m]),
                                hash == text_hash(ps[n as int]),
                                forall|m: int|
                                    0 <= m < j ==> #[trigger] hashes@[m] != hash || reserved_index(
                                        ps[m],
                                    ) is Some,
                            decreases n - j,
                        {
                            j += 1;
                        }
                        if j < n {
                            assert(had[j as int] == ps[j as int]);
                            if *parts[j].as_str() != *part {
                                assert((v + ps)[v.len() + j] == ps[j as int]);
                                assert((v + ps)[v.len() + n] == p);
                                return false;
                            }
                            proof {
                                lemma_interned_all_found(v, had, j as int);
                                assert((v + had)[v.len() + j] == p);
                            }
                        } else {
                            proof {
                                assert forall|i: int| !is_filed_at(w, p, i) by {
                                    if is_filed_at(w, p, i) {
                                        lemma_interned_all_texts(v, had, i);
                                        if i < v.len() {
                                            assert(is_filed_at(v, p, i));
                                        } else if had.contains(w[i]) {
                                            let m = choose|m: int| 0 <= m < n && had[m] == w[i];
                                            assert(hashes@[m] == hash);
                                        } else {
                                            let m = choose|m: int| 0 <= m < v.len() && v[m] == w[i];
                                            assert(m >= LATIN1_NUM) by {
                                                if m < LATIN1_NUM {
                                                    assert(v[m] == latin1(m));
                                                }
                                            }
                                            assert(is_filed_at(v, p, m));
                                        }
                                    }
                                }
                            }
                            proof {
                                assert forall|i: int|
                                    0 <= i < (v + had).len() && reserved_index(
                                        #[trigger] (v + had)[i],
                                    ) is None implies text_hash((v + had)[i]) != text_hash(p) by {
                                    if i < LATIN1_NUM {
                                        assert((v + had)[i] == v[i] && v[i] == latin1(i));
                                    } else if i < v.len() {
                                        assert(!is_filed_at(v, p, i));
                                    } else {
                                        assert(hashes@[i - v.len()] != hash);
                                    }
                                }
                            }
                            fresh += 1;
                        }
                    },
                }
            }
            hashes.push(hash);
            n += 1;
        }
        assert(ps.take(n as int) =~= ps);
        let total: u128 = self.len as u128 + fresh as u128;
        total <= 0x1_0000_0000u128 && total <= usize::MAX as u128
    }

    /// Splits a string by a delimiter, stores the delimiter and each part, and returns the
    /// indices of the parts in their order, and separately that of the delimiter.
    ///
    /// An index 0 (empty string) among those of the parts means:
    /// - at start/end: delimiter found at start/end of the string
    /// - elsewhere: 2 contiguous delimiters (or more with subsequent zero indices)
    pub fn split_and_store(&mut self, s: &str, delim: &str) -> (result: (Vec<u32>, u32))
        requires
            old(self).wf(),
            apart(old(self)@, split_texts(s@, delim@)),
            interned_all(old(self)@, split_texts(s@, delim@)).len() <= max_len(),
        ensures
            final(self).wf(),
            extends(old(self)@, final(self)@),
            final(self)@ == interned_all(old(self)@, split_texts(s@, delim@)),
            are_slots(final(self)@, parts_of(s@, delim@), result.0@),
            are_slots(final(self)@, seq![delim@], seq![result.1]),
    {
        let ghost v = self@;
        let ghost head = seq![delim@];
        let parts = parts_to_store(s, delim);
        proof {
            let ps = string_views(parts@);
            assert(apart(v, head + ps));
            lemma_apart_concat(v, head, ps);
            lemma_interned_all_concat(v, head, ps);
            lemma_apart_step(v, head, 0);
            assert(head.take(0) =~= seq![]);
            assert(head.drop_last() =~= seq![]);
            assert(interned_all(v, head) == interned(v, delim@));
            lemma_interned_all_prefix(interned(v, delim@), ps);
        }
        let delim_idx: u32 = self.insert(delim);
        let ghost w = self@;
        let indices = self.store_parts(&parts);
        proof {
            lemma_slot_stable(w, self@, delim@);
        }
        (indices, delim_idx)
    }

    /// Splits a string by several delimiters and stores the delimiters and each token, returning
    /// the indices of the tokens in their order (delimiters included!), and separately those of
    /// the delimiters.
    ///
    /// `force_regex` tells whether the delimiters are found with a regular expression; with
    /// `None` that depends on the length of the string and the number of delimiters. The tokens
    /// are the same either way.
    ///
    /// - If `s` is empty, index `0` is returned, along with the delimiter indices.
    /// - If `delims` is empty, the index of `s` itself is returned (assuming `s` is not empty).
    pub fn split_and_store_multi(
        &mut self,
        s: &str,
        delims: &[&str],
        force_regex: Option<bool>,
    ) -> (result: (Vec<u32>, Vec<u32>))
        requires
            old(self).wf(),
            apart(old(self)@, multi_texts(s@, texts(delims@))),
            interned_all(old(self)@, multi_texts(s@, texts(delims@))).len() <= max_len(),
        ensures
            final(self).wf(),
            extends(old(self)@, final(self)@),
            final(self)@ == interned_all(old(self)@, multi_texts(s@, texts(delims@))),
            are_slots(final(self)@, multi_parts_of(s@, texts(delims@)), result.0@),
            are_slots(final(self)@, texts(delims@), result.1@),
    {
        let ghost v = self@;
        let ghost ds = texts(delims@);
        let delim_strings = owned(delims);
        let parts = multi_parts_to_store(s, delims, force_regex);
        proof {
            let ps = string_views(parts@);
            lemma_apart_concat(v, ds, ps);
            lemma_interned_all_concat(v, ds, ps);
            lemma_interned_all_prefix(interned_all(v, ds), ps);
        }
        let delim_indices = self.store_parts(&delim_strings);
        let ghost w = self@;
        let indices = self.store_parts(&parts);
        proof {
            assert forall|n: int| 0 <= n < ds.len() implies slot(self@, ds[n])
                == Some(#[trigger] delim_indices@[n] as int) && delim_indices@[n] < self@.len() by {
                assert(slot(w, ds[n]) == Some(delim_indices@[n] as int));
                lemma_slot_stable(w, self@, ds[n]);
            }
        }
        (indices, delim_indices)
    }

    /// Stores the segments of a normalized path and returns their indices.
    ///
    /// If the first of several indices is 0, the path is absolute. Especially, for the root path
    /// the result is `[0, 0]`.
    pub fn store_path(&mut self, path: &str) -> (indices: Vec<u32>)
        requires
            old(self).wf(),
            apart(old(self)@, parts_of(path@, PATH_SEP@)),
            interned_all(old(self)@, parts_of(path@, PATH_SEP@)).len() <= max_len(),
        ensures
            final(self).wf(),
            extends(old(self)@, final(self)@),
            final(self)@ == interned_all(old(self)@, parts_of(path@, PATH_SEP@)),
            are_slots(final(self)@, parts_of(path@, PATH_SEP@), indices@),
    {
        let parts = parts_to_store(path, PATH_SEP);
        self.store_parts(&parts)
    }

    /// Reconstruct a string from the indices of its parts and of the delimiter between them.
    /// Returns an error if any index is out of bounds.
    pub fn reconstruct(&self, indices: &[u32], delim: u32) -> (result: StringStoreResult<String>)
        requires
            self.wf(),
        ensures
            is_reconstruction(self@, indices@, delim, result),
    {
        let ghost v = self@;
        let parts_num: usize = indices.len();
        if parts_num == 0 || (parts_num == 1 && indices[0] == 0) {
            return Ok(String::new());
        } else if parts_num > u32::MAX as usize {
            return Err(
                StringStoreError::ReconstructionTooLarge {
                    requested: parts_num,
                    max: u32::MAX as usize,
                },
            );
        }
        let stored_num: usize = self.len();
        if delim as usize >= stored_num {
            return Err(StringStoreError::oob(delim, stored_num - 1));
        }
        let delim_str = self.borrow_str(delim);
        let ghost ps = texts_at(v, indices@);
        let ghost d = delim_str@;
        let mut text = String::new();
        let mut i: usize = 0;
        while i < parts_num
            invariant
                i <= parts_num,
                parts_num == indices@.len(),
                self.wf(),
                v == self@,
                stored_num == v.len(),
                ps == texts_at(v, indices@),
                d == delim_str@,
                d == v[delim as int],
                delim < v.len(),
                0 < parts_num <= u32::MAX,
                !(parts_num == 1 && indices@[0] == 0),
                forall|j: int| 0 <= j < i ==> #[trigger] indices@[j] < v.len(),
                i == 0 ==> text@ == Seq::<char>::empty(),
                0 < i < parts_num ==> text@ == join(ps.take(i as int), d) + d,
                i == parts_num ==> text@ == join(ps, d),
            decreases parts_num - i,
        {
            let idx: u32 = indices[i];
            if idx as usize >= stored_num {
                proof {
                    assert(is_first_bad(v, indices@, i as int));
                    let first = choose|pos: int| is_first_bad(v, indices@, pos);
                    assert(is_first_bad(v, indices@, first));
                    assert(indices@[first] >= v.len() && indices@[i as int] >= v.len());
                }
                return Err(StringStoreError::reconstruction(idx, i, stored_num as u32));
            }
            text.append(self.borrow_str(idx));
            proof {
                assert(ps[i as int] == v[idx as int]);
                assert(ps.take(i + 1).drop_last() =~= ps.take(i as int));
                assert(text@ =~= join(ps.take(i + 1), d));
                assert(i + 1 == parts_num ==> ps.take(i + 1) =~= ps);
            }
            if i < parts_num - 1 {
                text.append(delim_str);
            }
            i += 1;
        }
        Ok(text)
    }

    /// The strings that were inserted, in their order.
    pub closed spec fn strings(&self) -> Seq<Seq<char>> {
        shared_views(self.store@)
    }

    /// What the content index holds.
    pub closed spec fn entries(&self) -> Map<u64, u32> {
        entries_of(self.index)
    }

    /// What the counter of strings says.
    pub closed spec fn counter(&self) -> usize {
        self.len
    }

    /// Validate the contents of the store and index. Returns a list of errors if any are found.
    pub fn validate_contents(&self) -> (result: Result<(), Vec<String>>)
        ensures
            result is Ok <==> agree(self.strings(), self.entries(), self.counter() as int),
            self.wf() ==> result is Ok,
            result matches Err(errors) ==> exists|listing: Seq<(u64, u32)>| #[trigger]
                is_listing(listing, self.entries()) && string_views(errors@) == all_errors(
                    self.strings(),
                    self.entries(),
                    self.counter() as int,
                    listing,
                ),
    {
        let errors = find_errors(&self.store, &self.index, self.len);
        proof {
            let listing = choose|listing: Seq<(u64, u32)>| #[trigger]
                is_listing(listing, self.entries()) && string_views(errors@) == all_errors(
                    self.strings(),
                    self.entries(),
                    self.counter() as int,
                    listing,
                );
            law_no_errors_iff_agreement(
                self.strings(),
                self.entries(),
                self.counter() as int,
                listing,
            );
            assert(string_views(errors@).len() == errors@.len());
            if self.wf() {
                assert forall|sid: int| 0 <= sid < self.strings().len() implies {
                    &&& self.entries().contains_key(text_hash(#[trigger] self.strings()[sid]))
                    &&& self.entries()[text_hash(self.strings()[sid])] == sid
                } by {
                    assert(self.strings()[sid] == self.store@[sid]@);
                }
            }
        }
        if errors.len() > 0 {
            return Err(errors);
        }
        Ok(())
    }

    /// Insert a string as [`UniqueStrStore::try_insert`] does, unless another string with the
    /// same hash is stored.
    pub fn checked_insert(&mut self, s: &str) -> (result: Option<StringStoreResult<u32>>)
        requires
            old(self).wf(),
        ensures
            final(self).wf(),
            extends(old(self)@, final(self)@),
            result is None <==> collides(old(self)@, s@),
            result is None ==> *final(self) == *old(self),
            result matches Some(Ok(i)) ==> {
                &&& interned(old(self)@, s@).len() <= max_len()
                &&& final(self)@ == interned(old(self)@, s@)
                &&& slot(final(self)@, s@) == Some(i as int)
                &&& i < final(self)@.len()
            },
            result matches Some(Err(error)) ==> {
                &&& interned(old(self)@, s@).len() > max_len()
                &&& error is StoreFull
                &&& *final(self) == *old(self)
            },
    {
        if self.is_collision(s) {
            None
        } else {
            Some(self.try_insert(s))
        }
    }

    /// Insert a string and return its handle as [`UniqueStrStore::insert_or_get`] does, unless
    /// another string with the same hash is stored, or the string is new and the store full.
    pub fn checked_insert_or_get(&mut self, s: &str) -> (handle: Option<StoredStr<'_>>)
        requires
            old(self).wf(),
        ensures
            final(self).wf(),
            extends(old(self)@, final(self)@),
            handle is Some <==> !collides(old(self)@, s@) && interned(old(self)@, s@).len()
                <= max_len(),
            match handle {
                Some(h) => {
                    &&& final(self)@ == interned(old(self)@, s@)
                    &&& slot(final(self)@, s@) == Some(h.index() as int)
                    &&& h.origin() == *final(self)
                    &&& h@ == final(self)@[h.index() as int]
                    &&& s@ != nul() ==> h@ == s@
                },
                None => *final(self) == *old(self),
            },
    {
        if self.is_collision(s) {
            return None;
        }
        if self.contains(s) || !self.is_full() {
            Some(self.insert_or_get(s))
        } else {
            None
        }
    }

    /// The strings that were inserted, in their order.
    pub fn inserted(&self) -> (strings: &Vec<Arc<String>>)
        ensures
            shared_views(strings@) == self.strings(),
            self@ == initial_contents() + shared_views(strings@),
    {
        &self.store
    }

    /// The strings at the reserved indices.
    pub fn reserved_strings(&self) -> (strings: &Vec<Arc<String>>)
        requires
            self.wf(),
        ensures
            shared_views(strings@) == initial_contents(),
    {
        assert(shared_views(self.ascii@) =~= initial_contents());
        &self.ascii
    }

    /// The number of entries of the content index, and the number that fit without another
    /// allocation.
    pub fn index_load(&self) -> (load: (usize, usize))
        requires
            self.wf(),
        ensures
            load.0 == self@.len() - LATIN1_NUM,
            load.1 >= load.0,
    {
        (index_len(&self.index), index_capacity(&self.index))
    }

    /// Whether another string with the hash of `s` is stored.
    pub fn is_collision(&self, s: &str) -> (collision: bool)
        requires
            self.wf(),
        ensures
            collision == collides(self@, s@),
    {
        if reserved(s).is_some() {
            return false;
        }
        match self.filed(s) {
            Some(i) => {
                let ghost k = i + LATIN1_NUM;
                assert(self@[k] == self.store@[i as int]@);
                assert(is_filed_at(self@, s@, k));
                proof {
                    assert forall|c: int| is_filed_at(self@, s@, c) implies c == k by {
                        lemma_slot_is(self@, s@, c);
                    }
                }
                *self.store[i as usize].as_str() != *s
            },
            None => false,
        }
    }

    /// Split and store a string as [`UniqueStrStore::split_and_store`] does, unless the store
    /// does not admit what would be stored.
    pub fn checked_split_and_store(&mut self, s: &str, delim: &str) -> (result: Option<
        (Vec<u32>, u32),
    >)
        requires
            old(self).wf(),
        ensures
            final(self).wf(),
            extends(old(self)@, final(self)@),
            result is Some <==> apart(old(self)@, split_texts(s@, delim@)) && interned_all(
                old(self)@,
                split_texts(s@, delim@),
            ).len() <= max_len(),
            match result {
                Some((indices, delim_idx)) => {
                    &&& final(self)@ == interned_all(old(self)@, split_texts(s@, delim@))
                    &&& are_slots(final(self)@, parts_of(s@, delim@), indices@)
                    &&& are_slots(final(self)@, seq![delim@], seq![delim_idx])
                },
                None => *final(self) == *old(self),
            },
    {
        let delims: [&str; 1] = [delim];
        let mut list = owned(&delims);
        let mut parts = parts_to_store(s, delim);
        assert(texts(delims@) =~= seq![delim@]);
        let ghost (ls, ps) = (list@, parts@);
        list.append(&mut parts);
        assert(string_views(list@) =~= string_views(ls) + string_views(ps));
        assert(string_views(list@) =~= split_texts(s@, delim@));
        if self.admits(&list) {
            Some(self.split_and_store(s, delim))
        } else {
            None
        }
    }

    /// Split and store a string as [`UniqueStrStore::split_and_store_multi`] does, unless the
    /// store does not admit what would be stored.
    pub fn checked_split_and_store_multi(
        &mut self,
        s: &str,
        delims: &[&str],
        force_regex: Option<bool>,
    ) -> (result: Option<(Vec<u32>, Vec<u32>)>)
        requires
            old(self).wf(),
        ensures
            final(self).wf(),
            extends(old(self)@, final(self)@),
            result is Some <==> apart(old(self)@, multi_texts(s@, texts(delims@)))
                && interned_all(old(self)@, multi_texts(s@, texts(delims@))).len() <= max_len(),
            match result {
                Some((indices, delim_indices)) => {
                    &&& final(self)@ == interned_all(old(self)@, multi_texts(s@, texts(delims@)))
                    &&& are_slots(final(self)@, multi_parts_of(s@, texts(delims@)), indices@)
                    &&& are_slots(final(self)@, texts(delims@), delim_indices@)
                },
                None => *final(self) == *old(self),
            },
    {
        let mut list = owned(delims);
        let mut parts = multi_parts_to_store(s, delims, force_regex);
        let ghost (ls, ps) = (list@, parts@);
        list.append(&mut parts);
        assert(string_views(list@) =~= string_views(ls) + string_views(ps));
        assert(string_views(list@) =~= multi_texts(s@, texts(delims@)));
        if self.admits(&list) {
            Some(self.split_and_store_multi(s, delims, force_regex))
        } else {
            None
        }
    }

    /// Store a path as [`UniqueStrStore::store_path`] does, unless the store does not admit what
    /// would be stored.
    pub fn checked_store_path(&mut self, path: &str) -> (result: Option<Vec<u32>>)
        requires
            old(self).wf(),
        ensures
            final(self).wf(),
            extends(old(self)@, final(self)@),
            result is Some <==> apart(old(self)@, parts_of(path@, PATH_SEP@)) && interned_all(
                old(self)@,
                parts_of(path@, PATH_SEP@),
            ).len() <= max_len(),
            match result {
                Some(indices) => {
                    &&& final(self)@ == interned_all(old(self)@, parts_of(path@, PATH_SEP@))
                    &&& are_slots(final(self)@, parts_of(path@, PATH_SEP@), indices@)
                },
                None => *final(self) == *old(self),
            },
    {
        let parts = parts_to_store(path, PATH_SEP);
        if self.admits(&parts) {
            Some(self.store_path(path))
        } else {
            None
        }
    }
}

/// The parts that [`UniqueStrStore::split_and_store`] stores of a text: an empty text is its
/// only part, whatever the delimiter.
pub open spec fn parts_of(t: Seq<char>, d: Seq<char>) -> Seq<Seq<char>> {
    if t.len() == 0 {
        seq![t]
    } else {
        split_parts(t, d)
    }
}

/// All texts that [`UniqueStrStore::split_and_store`] stores, in their order.
pub open spec fn split_texts(t: Seq<char>, d: Seq<char>) -> Seq<Seq<char>> {
    seq![d] + parts_of(t, d)
}

/// The parts of a string, as they are stored.
fn parts_to_store(s: &str, delim: &str) -> (parts: Vec<String>)
    ensures
        string_views(parts@) == parts_of(s@, delim@),
{
    if s.is_empty() {
        let parts: Vec<String> = vec![String::new()];
        assert(parts@[0]@ =~= s@);
        assert(string_views(parts@) =~= parts_of(s@, delim@));
        parts
    } else {
        split(s, delim)
    }
}

/// The separator between the segments of a path.
pub const PATH_SEP: &'static str = "/";

/// The parts that [`UniqueStrStore::split_and_store_multi`] stores of a text: its tokens, or
/// the whole text where it is empty or there are no delimiters.
pub open spec fn multi_parts_of(t: Seq<char>, delims: Seq<Seq<char>>) -> Seq<Seq<char>> {
    if t.len() == 0 || delims.len() == 0 {
        seq![t]
    } else {
        contents_of(tokens_of(t, delims))
    }
}

/// All texts that [`UniqueStrStore::split_and_store_multi`] stores, in their order.
pub open spec fn multi_texts(t: Seq<char>, delims: Seq<Seq<char>>) -> Seq<Seq<char>> {
    delims + multi_parts_of(t, delims)
}

/// Whether the delimiters are found with a regular expression: as the caller says, otherwise
/// where the string is long or the delimiters are many.
pub open spec fn regex_chosen(bytes: int, delims: int, force_regex: Option<bool>) -> bool {
    match force_regex {
        Some(choice) => choice,
        None => bytes * delims > 10000 || delims > 10,
    }
}

/// Whether the delimiters of a string of `bytes` bytes are found with a regular expression.
pub fn uses_regex(bytes: usize, delims: usize, force_regex: Option<bool>) -> (chosen: bool)
    ensures
        chosen == regex_chosen(bytes as int, delims as int, force_regex),
{
    match force_regex {
        Some(choice) => choice,
        None => match bytes.checked_mul(delims) {
            Some(complexity) => complexity > 10000 || delims > 10,
            None => true,
        },
    }
}

/// The tokens of a string, as they are stored.
fn multi_parts_to_store(s: &str, delims: &[&str], force_regex: Option<bool>) -> (parts: Vec<String>)
    ensures
        string_views(parts@) == multi_parts_of(s@, texts(delims@)),
{
    if s.is_empty() || delims.len() == 0 {
        let whole: [&str; 1] = [s];
        let parts = owned(&whole);
        assert(string_views(parts@) =~= seq![s@]);
        return parts;
    }
    let tokens = if uses_regex(s.len(), delims.len(), force_regex) {
        tokenize_regex(s, delims)
    } else {
        tokenize(s, delims)
    };
    let mut parts: Vec<String> = Vec::new();
    let mut n: usize = 0;
    while n < tokens.len()
        invariant
            n <= tokens@.len(),
            parts@.len() == n,
            forall|j: int| 0 <= j < n ==> (#[trigger] parts@[j])@ == tokens@[j].content@,
        decreases tokens@.len() - n,
    {
        parts.push(tokens[n].content.clone());
        n += 1;
    }
    assert(string_views(parts@) =~= contents_of(token_views(tokens@)));
    parts
}

/// Copies of the strings.
fn owned(strs: &[&str]) -> (strings: Vec<String>)
    ensures
        string_views(strings@) == texts(strs@),
{
    let mut strings: Vec<String> = Vec::new();
    let mut n: usize = 0;
    while n < strs.len()
        invariant
            n <= strs@.len(),
            strings@.len() == n,
            forall|j: int| 0 <= j < n ==> (#[trigger] strings@[j])@ == strs@[j]@,
        decreases strs@.len() - n,
    {
        strings.push(String::from(strs[n]));
        n += 1;
    }
    assert(string_views(strings@) =~= texts(strs@));
    strings
}

/// The texts that the indices stand for.
pub open spec fn texts_at(v: Seq<Seq<char>>, indices: Seq<u32>) -> Seq<Seq<char>> {
    indices.map_values(|i: u32| v[i as int])
}

/// Whether there is nothing to reconstruct: no index, or only that of the empty string.
pub open spec fn is_blank(indices: Seq<u32>) -> bool {
    indices.len() == 0 || (indices.len() == 1 && indices[0] == 0)
}

/// What [`UniqueStrStore::reconstruct`] returns. In this order: where there is nothing to
/// reconstruct, the empty string; too many indices are refused; so is a delimiter that is out
/// of bounds; so is the first index that is out of bounds; otherwise the parts are joined.
pub open spec fn is_reconstruction(
    v: Seq<Seq<char>>,
    indices: Seq<u32>,
    delim: u32,
    result: StringStoreResult<String>,
) -> bool {
    if is_blank(indices) {
        result matches Ok(text) && text@ == Seq::<char>::empty()
    } else if indices.len() > u32::MAX {
        result == Err::<String, StringStoreError>(
            StringStoreError::ReconstructionTooLarge {
                requested: indices.len() as usize,
                max: u32::MAX as usize,
            },
        )
    } else if delim >= v.len() {
        result == Err::<String, StringStoreError>(
            StringStoreError::IndexOutOfBounds { idx: delim, max: (v.len() - 1) as usize },
        )
    } else if exists|pos: int| is_first_bad(v, indices, pos) {
        let pos = choose|pos: int| is_first_bad(v, indices, pos);
        result == Err::<String, StringStoreError>(
            StringStoreError::InvalidReconstruction {
                idx: indices[pos],
                pos: pos as usize,
                max: v.len() as u32,
            },
        )
    } else {
        result matches Ok(text) && text@ == join(texts_at(v, indices), v[delim as int])
    }
}

/// Whether the index at `pos` is the first one that is out of bounds.
pub open spec fn is_first_bad(v: Seq<Seq<char>>, indices: Seq<u32>, pos: int) -> bool {
    &&& 0 <= pos < indices.len()
    &&& indices[pos] >= v.len()
    &&& forall|j: int| 0 <= j < pos ==> #[trigger] indices[j] < v.len()
}

} // verus!
