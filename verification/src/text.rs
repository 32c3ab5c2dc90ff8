//! Strings as sequences of characters.
use vstd::prelude::*;
use vstd::utf8::encode_utf8;

verus! {

/// `String::push` appends one character.
pub assume_specification[ String::push ](text: &mut String, c: char)
    ensures
        final(text)@ == old(text)@.push(c),
;

/// `==` on `str` compares the contents.
pub assume_specification[ <str as PartialEq>::eq ](a: &str, b: &str) -> (same: bool)
    ensures
        same == (a@ == b@),
;

/// `String::from` on a string slice copies its contents.
pub assume_specification<'a>[ <String as From<&'a str>>::from ](text: &str) -> (copy: String)
    ensures
        copy@ == text@,
;

/// `Hash::hash` on `str` feeds the string to a hasher. What that does to the hasher is left
/// unsaid: it is up to the hasher.
pub assume_specification<H>[ <str as std::hash::Hash>::hash::<H> ](text: &str, state: &mut H) where
    H: std::hash::Hasher,
;

/// The number of bytes of a text.
pub open spec fn byte_len(t: Seq<char>) -> usize {
    encode_utf8(t).len() as usize
}

/// `str::as_ptr`: the address at which a string stands. Which one that is, is left unsaid: it is
/// up to the allocator.
#[verifier::external_body]
pub(crate) fn address_of(text: &str) -> (address: usize) {
    text.as_ptr() as usize
}

/// The characters of a string.
pub(crate) fn chars_of(text: &str) -> (chars: Vec<char>)
    ensures
        chars@ == text@,
{
    let mut chars: Vec<char> = Vec::new();
    for c in it: text.chars()
        invariant
            it.seq() == text@,
            chars@ == text@.take(it.index() as int),
    {
        chars.push(c);
    }
    chars
}

/// The string that `chars[from..to]` spells.
pub(crate) fn spell(chars: &Vec<char>, from: usize, to: usize) -> (text: String)
    requires
        from <= to <= chars@.len(),
    ensures
        text@ == chars@.subrange(from as int, to as int),
{
    let mut text = String::new();
    let mut i: usize = from;
    while i < to
        invariant
            from <= i <= to <= chars@.len(),
            text@ == chars@.subrange(from as int, i as int),
        decreases to - i,
    {
        text.push(chars[i]);
        i += 1;
    }
    text
}

} // verus!
