//! Handles of stored strings.
use crate::digits::{decimal, hexadecimal, push_decimal, push_hexadecimal};
use crate::laws::law_each_string_is_held_once;
use crate::order::{compare_texts, text_order};
use crate::show::{put, quoted, quoted_of};
use crate::store::UniqueStrStore;
use crate::text::{address_of, byte_len};
use std::cmp::Ordering;
use std::ops::Deref;
use std::sync::Arc;
use vstd::prelude::*;
use vstd::std_specs::cmp::{PartialEqSpec, PartialOrdSpec};
use vstd::std_specs::convert::FromSpec;
use vstd::utf8::encode_utf8;

verus! {

/// Pointer to a string living in a [`UniqueStrStore`].
///
/// The pointer does not borrow the store, and the string that it points to neither moves nor
/// changes while the store grows.
pub struct StoredStrPtr {
    text: Arc<String>,
    address: usize,
}

impl View for StoredStrPtr {
    type V = Seq<char>;

    closed spec fn view(&self) -> Seq<char> {
        self.text@
    }
}

impl StoredStrPtr {
    /// The address at which the string stands.
    pub closed spec fn address(&self) -> usize {
        self.address
    }

    pub(crate) fn new(text: Arc<String>) -> (ptr: Self)
        ensures
            ptr@ == text@,
    {
        let address: usize = address_of(text.as_str());
        StoredStrPtr { text, address }
    }

    /// The string that the pointer points to.
    pub fn as_str(&self) -> (text: &str)
        ensures
            text@ == self@,
    {
        self.text.as_str()
    }

    /// A copy of the string that the pointer points to.
    pub fn to_string(&self) -> (text: String)
        ensures
            text@ == self@,
    {
        String::from(self.as_str())
    }

    /// The order of the strings that two pointers point to.
    pub fn cmp(&self, other: &Self) -> (order: Ordering)
        ensures
            order == text_order(self@, other@),
    {
        compare_texts(self.as_str(), other.as_str())
    }

    /// The pointer as `Debug` shows it: its address, and the string in quotes.
    pub fn debug_text(&self) -> (text: String)
        ensures
            text@ == "StoredStrPtr(0x"@ + hexadecimal(self.address() as int) + " -> "@ + quoted_of(
                self@,
            ) + ")"@,
    {
        let mut text = String::new();
        text.append("StoredStrPtr(0x");
        push_hexadecimal(&mut text, self.address as u64);
        text.append(" -> ");
        text.append(&quoted(self.as_str()));
        text.append(")");
        assert(text@ =~= "StoredStrPtr(0x"@ + hexadecimal(self.address() as int) + " -> "@
            + quoted_of(self@) + ")"@);
        text
    }
}

impl Clone for StoredStrPtr {
    fn clone(&self) -> (copy: Self)
        ensures
            copy == *self,
    {
        StoredStrPtr { text: self.text.clone(), address: self.address }
    }
}

impl std::fmt::Debug for StoredStrPtr {
    fn fmt(&self, f: &mut std::fmt::Formatter<'_>) -> std::fmt::Result {
        put(f, &self.debug_text())
    }
}

/// Pointers are equal where the strings that they point to have one address and one length.
impl PartialEq for StoredStrPtr {
    fn eq(&self, other: &Self) -> (same: bool) {
        self.address == other.address && self.as_str().len() == other.as_str().len()
    }
}

impl vstd::std_specs::cmp::PartialEqSpecImpl for StoredStrPtr {
    open spec fn obeys_eq_spec() -> bool {
        true
    }

    open spec fn eq_spec(&self, other: &Self) -> bool {
        self.address() == other.address() && byte_len(self@) == byte_len(other@)
    }
}

impl Eq for StoredStrPtr {

}

impl<'b> PartialEq<&'b str> for StoredStrPtr {
    fn eq(&self, other: &&'b str) -> (same: bool) {
        *self.as_str() == **other
    }
}

impl<'b> vstd::std_specs::cmp::PartialEqSpecImpl<&'b str> for StoredStrPtr {
    open spec fn obeys_eq_spec() -> bool {
        true
    }

    open spec fn eq_spec(&self, other: &&'b str) -> bool {
        self@ == other@
    }
}

impl PartialOrd for StoredStrPtr {
    fn partial_cmp(&self, other: &Self) -> (order: Option<Ordering>) {
        Some(compare_texts(self.as_str(), other.as_str()))
    }
}

impl vstd::std_specs::cmp::PartialOrdSpecImpl for StoredStrPtr {
    open spec fn obeys_partial_cmp_spec() -> bool {
        true
    }

    open spec fn partial_cmp_spec(&self, other: &Self) -> Option<Ordering> {
        Some(text_order(self@, other@))
    }
}

impl std::hash::Hash for StoredStrPtr {
    fn hash<H: std::hash::Hasher>(&self, state: &mut H) {
        self.as_str().hash(state)
    }
}

impl AsRef<str> for StoredStrPtr {
    fn as_ref(&self) -> (text: &str)
        ensures
            text@ == self@,
    {
        self.as_str()
    }
}

/// A reference (index) to a string in a [`UniqueStrStore`].
///
/// This is a self-contained version which has a reference back to the store, which allows it to
/// be used in place of a "normal" string slice.
pub struct StoredStr<'a>(u32, &'a UniqueStrStore);

impl<'a> View for StoredStr<'a> {
    type V = Seq<char>;

    closed spec fn view(&self) -> Seq<char> {
        self.1@[self.0 as int]
    }
}

impl<'a> StoredStr<'a> {
    /// The store is sound and holds a string at the index.
    #[verifier::type_invariant]
    spec fn valid(self) -> bool {
        self.1.wf() && self.0 < self.1@.len()
    }

    /// The index of the string.
    pub closed spec fn index(&self) -> u32 {
        self.0
    }

    /// The store that holds the string.
    pub closed spec fn origin(&self) -> UniqueStrStore {
        *self.1
    }

    /// A handle shows what its store holds at its index.
    pub proof fn law_shows_what_is_held(&self)
        ensures
            self@ == self.origin()@[self.index() as int],
    {
    }

    pub(crate) fn new(idx: u32, store: &'a UniqueStrStore) -> (handle: Self)
        requires
            store.wf(),
            idx < store@.len(),
        ensures
            handle.index() == idx,
            handle.origin() == *store,
            handle@ == store@[idx as int],
    {
        StoredStr(idx, store)
    }

    /// The string itself.
    fn reference(&self) -> (text: &'a str)
        ensures
            text@ == self@,
    {
        proof {
            use_type_invariant(self);
        }
        self.1.borrow_str(self.0)
    }

    /// A pointer to the string.
    pub fn as_ptr(&self) -> (ptr: StoredStrPtr)
        ensures
            ptr@ == self@,
    {
        proof {
            use_type_invariant(self);
        }
        self.1.get_ptr(self.0)
    }

    /// Get the index of the stored string.
    pub fn idx(&self) -> (idx: u32)
        ensures
            idx == self.index(),
    {
        self.0
    }

    /// Get the reference to the [`UniqueStrStore`] that contains this string.
    pub fn store(&self) -> (store: &'a UniqueStrStore)
        ensures
            *store == self.origin(),
            store.wf(),
            self.index() < store@.len(),
            store@[self.index() as int] == self@,
    {
        proof {
            use_type_invariant(self);
        }
        self.1
    }

    /// A copy of the string.
    pub fn cloned(&self) -> (text: String)
        ensures
            text@ == self@,
    {
        String::from(self.reference())
    }

    /// The order of the strings of two handles.
    pub fn cmp(&self, other: &Self) -> (order: Ordering)
        ensures
            order == text_order(self@, other@),
    {
        compare_texts(self.reference(), other.reference())
    }

    /// The handle as `Debug` shows it: its index, and the string in quotes.
    pub fn debug_text(&self) -> (text: String)
        ensures
            text@ == "StoredStr("@ + decimal(self.index() as int) + ": "@ + quoted_of(self@)
                + ")"@,
    {
        let mut text = String::new();
        text.append("StoredStr(");
        push_decimal(&mut text, self.0 as u64);
        text.append(": ");
        text.append(&quoted(self.reference()));
        text.append(")");
        assert(text@ =~= "StoredStr("@ + decimal(self.index() as int) + ": "@ + quoted_of(self@)
            + ")"@);
        text
    }
}

impl<'a> std::fmt::Debug for StoredStr<'a> {
    fn fmt(&self, f: &mut std::fmt::Formatter<'_>) -> std::fmt::Result {
        put(f, &self.debug_text())
    }
}

impl<'a> Clone for StoredStr<'a> {
    fn clone(&self) -> (copy: Self)
        ensures
            copy == *self,
    {
        proof {
            use_type_invariant(self);
        }
        StoredStr(self.0, self.1)
    }
}

impl<'a> AsRef<str> for StoredStr<'a> {
    fn as_ref(&self) -> (text: &str)
        ensures
            text@ == self@,
    {
        self.reference()
    }
}

impl<'a> Deref for StoredStr<'a> {
    type Target = str;

    fn deref(&self) -> (text: &str)
        ensures
            text@ == self@,
    {
        self.reference()
    }
}

impl<'a> PartialEq for StoredStr<'a> {
    fn eq(&self, other: &Self) -> (same: bool) {
        *self.reference() == *other.reference()
    }
}

impl<'a> vstd::std_specs::cmp::PartialEqSpecImpl for StoredStr<'a> {
    open spec fn obeys_eq_spec() -> bool {
        true
    }

    open spec fn eq_spec(&self, other: &Self) -> bool {
        self@ == other@
    }
}

impl<'a> Eq for StoredStr<'a> {

}

impl<'a, 'b> PartialEq<&'b str> for StoredStr<'a> {
    fn eq(&self, other: &&'b str) -> (same: bool) {
        *self.reference() == **other
    }
}

impl<'a, 'b> vstd::std_specs::cmp::PartialEqSpecImpl<&'b str> for StoredStr<'a> {
    open spec fn obeys_eq_spec() -> bool {
        true
    }

    open spec fn eq_spec(&self, other: &&'b str) -> bool {
        self@ == other@
    }
}

impl<'a, 'b> PartialEq<StoredStr<'a>> for &'b str {
    fn eq(&self, other: &StoredStr<'a>) -> (same: bool) {
        **self == *other.reference()
    }
}

impl<'a, 'b> vstd::std_specs::cmp::PartialEqSpecImpl<StoredStr<'a>> for &'b str {
    open spec fn obeys_eq_spec() -> bool {
        true
    }

    open spec fn eq_spec(&self, other: &StoredStr<'a>) -> bool {
        self@ == other@
    }
}

impl<'b> PartialEq<StoredStrPtr> for &'b str {
    fn eq(&self, other: &StoredStrPtr) -> (same: bool) {
        **self == *other.as_str()
    }
}

impl<'b> vstd::std_specs::cmp::PartialEqSpecImpl<StoredStrPtr> for &'b str {
    open spec fn obeys_eq_spec() -> bool {
        true
    }

    open spec fn eq_spec(&self, other: &StoredStrPtr) -> bool {
        self@ == other@
    }
}

impl<'a> PartialOrd for StoredStr<'a> {
    fn partial_cmp(&self, other: &Self) -> (order: Option<Ordering>) {
        Some(compare_texts(self.reference(), other.reference()))
    }
}

impl<'a> vstd::std_specs::cmp::PartialOrdSpecImpl for StoredStr<'a> {
    open spec fn obeys_partial_cmp_spec() -> bool {
        true
    }

    open spec fn partial_cmp_spec(&self, other: &Self) -> Option<Ordering> {
        Some(text_order(self@, other@))
    }
}

impl<'a> std::hash::Hash for StoredStr<'a> {
    fn hash<H: std::hash::Hasher>(&self, state: &mut H) {
        self.reference().hash(state)
    }
}

impl<'a> From<StoredStr<'a>> for u32 {
    fn from(v: StoredStr<'a>) -> (idx: u32) {
        v.0
    }
}

impl<'a> vstd::std_specs::convert::FromSpecImpl<StoredStr<'a>> for u32 {
    open spec fn obeys_from_spec() -> bool {
        true
    }

    open spec fn from_spec(v: StoredStr<'a>) -> u32 {
        v.index()
    }
}

impl<'a> From<StoredStr<'a>> for &'a str {
    fn from(v: StoredStr<'a>) -> (text: &'a str)
        ensures
            text@ == v@,
    {
        v.reference()
    }
}

impl<'a> vstd::std_specs::convert::FromSpecImpl<StoredStr<'a>> for &'a str {
    open spec fn obeys_from_spec() -> bool {
        false
    }

    open spec fn from_spec(v: StoredStr<'a>) -> &'a str {
        arbitrary()
    }
}

impl<'a> From<&'a StoredStrPtr> for &'a str {
    fn from(v: &'a StoredStrPtr) -> (text: &'a str)
        ensures
            text@ == v@,
    {
        v.as_str()
    }
}

impl<'a> vstd::std_specs::convert::FromSpecImpl<&'a StoredStrPtr> for &'a str {
    open spec fn obeys_from_spec() -> bool {
        false
    }

    open spec fn from_spec(v: &'a StoredStrPtr) -> &'a str {
        arbitrary()
    }
}

/// `text` written `n` times.
pub open spec fn repeated(text: Seq<char>, n: int) -> Seq<char>
    decreases n,
{
    if n <= 0 {
        seq![]
    } else {
        repeated(text, n - 1) + text
    }
}

/// A reference (index) to a string in a [`UniqueStrStore`].
///
/// This is a compact version which lacks a reference back to the containing store, hence it is
/// only usable as a part of a larger structure with a reference.
#[derive(Debug, Clone, Copy, PartialEq, Eq, Structural)]
pub struct CompactStr(pub u32);

impl CompactStr {
    /// The index of the string.
    pub fn idx(&self) -> (idx: u32)
        ensures
            idx == self.0,
    {
        self.0
    }

    /// The string in its store.
    pub fn get<'a>(&self, store: &'a UniqueStrStore) -> (text: &'a str)
        requires
            store.wf(),
            self.0 < store@.len(),
        ensures
            text@ == store@[self.0 as int],
    {
        store.borrow_str(self.0)
    }

    /// A copy of the string.
    pub fn to_string(&self, store: &UniqueStrStore) -> (text: String)
        requires
            store.wf(),
            self.0 < store@.len(),
        ensures
            text@ == store@[self.0 as int],
    {
        String::from(self.get(store))
    }
}

/// A single or repeated character stored in a [`UniqueStrStore`].
#[derive(Debug, Clone, Copy, PartialEq, Eq, Structural)]
pub struct Character(pub CompactStr, pub u8);

impl Character {
    /// The index of the character.
    pub fn idx(&self) -> (idx: u32)
        ensures
            idx == self.0.0,
    {
        self.0.0
    }

    /// How often the character stands there.
    pub fn num(&self) -> (num: u8)
        ensures
            num == self.1,
    {
        self.1
    }

    /// The character, once.
    pub fn get<'a>(&self, store: &'a UniqueStrStore) -> (text: &'a str)
        requires
            store.wf(),
            self.0.0 < store@.len(),
        ensures
            text@ == store@[self.0.0 as int],
    {
        store.borrow_str(self.idx())
    }

    /// The character as often as it stands there.
    pub fn to_string(&self, store: &UniqueStrStore) -> (text: String)
        requires
            store.wf(),
            self.0.0 < store@.len(),
        ensures
            text@ == repeated(store@[self.0.0 as int], self.1 as int),
    {
        let once = self.get(store);
        let mut text = String::new();
        let mut n: u8 = 0;
        while n < self.1
            invariant
                n <= self.1,
                text@ == repeated(once@, n as int),
            decreases self.1 - n,
        {
            text.append(once);
            n += 1;
        }
        text
    }
}

/// Two handles are equal exactly if they show the same string; so are a handle and a string.
pub proof fn law_handles_are_equal_iff_they_show_one_string<'a>(
    a: StoredStr<'a>,
    b: StoredStr<'a>,
    s: &str,
)
    ensures
        <StoredStr<'a> as PartialEqSpec>::obeys_eq_spec(),
        <StoredStr<'a> as PartialEqSpec<&str>>::obeys_eq_spec(),
        <&str as PartialEqSpec<StoredStr<'a>>>::obeys_eq_spec(),
        a.eq_spec(&b) <==> a@ == b@,
        a.eq_spec(&s) <==> a@ == s@,
        (&s).eq_spec(&a) <==> a@ == s@,
{
}

/// Handles of one store are equal exactly if their indices are.
pub proof fn law_handles_of_one_store_are_equal_iff_their_indices_are<'a>(
    a: StoredStr<'a>,
    b: StoredStr<'a>,
)
    requires
        a.origin() == b.origin(),
        a.origin().wf(),
        a.index() < a.origin()@.len(),
        b.index() < b.origin()@.len(),
    ensures
        a.eq_spec(&b) <==> a.index() == b.index(),
{
    let v = a.origin()@;
    a.law_shows_what_is_held();
    b.law_shows_what_is_held();
    law_each_string_is_held_once(v);
    if a.index() != b.index() {
        assert(v[a.index() as int] != v[b.index() as int]);
    }
}

/// Handles and pointers are ordered as the strings that they show.
pub proof fn law_handles_are_ordered_as_their_strings<'a>(
    a: StoredStr<'a>,
    b: StoredStr<'a>,
    p: StoredStrPtr,
    q: StoredStrPtr,
)
    ensures
        StoredStr::<'a>::obeys_partial_cmp_spec(),
        StoredStrPtr::obeys_partial_cmp_spec(),
        a.partial_cmp_spec(&b) == Some(text_order(a@, b@)),
        p.partial_cmp_spec(&q) == Some(text_order(p@, q@)),
{
}

/// Two pointers are equal exactly if the strings that they point to have one address and take
/// the same number of bytes. A pointer equals a string exactly if it shows that string.
pub proof fn law_pointers_are_equal_iff_they_point_to_one_place(
    p: StoredStrPtr,
    q: StoredStrPtr,
    s: &str,
)
    ensures
        <StoredStrPtr as PartialEqSpec>::obeys_eq_spec(),
        <StoredStrPtr as PartialEqSpec<&str>>::obeys_eq_spec(),
        <&str as PartialEqSpec<StoredStrPtr>>::obeys_eq_spec(),
        p.eq_spec(&q) <==> p.address() == q.address() && encode_utf8(p@).len() as usize
            == encode_utf8(q@).len() as usize,
        p.eq_spec(&s) <==> p@ == s@,
        (&s).eq_spec(&p) <==> p@ == s@,
{
}

/// A handle converts to its index.
pub proof fn law_handles_convert_to_their_indices<'a>(a: StoredStr<'a>)
    ensures
        <u32 as FromSpec<StoredStr<'a>>>::obeys_from_spec(),
        <u32 as FromSpec<StoredStr<'a>>>::from_spec(a) == a.index(),
{
}

/// A repeated text is as long as its copies together, and each of them is the text.
pub proof fn law_repeated_texts_are_copies(text: Seq<char>, n: int, copy: int, i: int)
    requires
        0 <= n,
    ensures
        repeated(text, n).len() == n * text.len(),
        0 <= copy < n && 0 <= i < text.len() ==> {
            &&& 0 <= copy * text.len() + i < repeated(text, n).len()
            &&& repeated(text, n)[copy * text.len() + i] == text[i]
        },
    decreases n,
{
    let len = text.len() as int;
    if n > 0 {
        law_repeated_texts_are_copies(text, n - 1, copy, i);
        assert(n * len == (n - 1) * len + len) by (nonlinear_arith);
        if 0 <= copy < n && 0 <= i < len {
            assert(copy * len >= 0) by (nonlinear_arith)
                requires
                    copy >= 0,
                    len >= 0,
            ;
            assert(copy < n - 1 ==> copy * len + len <= (n - 1) * len) by (nonlinear_arith)
                requires
                    len >= 0,
            ;
        }
    } else {
        assert(0 * len == 0) by (nonlinear_arith);
    }
}

} // verus!
