//! Writing values for people to read.
use vstd::prelude::*;

verus! {

/// `std::fmt::Formatter`, opaque to the verifier.
#[verifier::external_type_specification]
#[verifier::external_body]
pub struct ExFormatter<'a>(std::fmt::Formatter<'a>);

/// `std::fmt::Error`, opaque to the verifier.
#[verifier::external_type_specification]
#[verifier::external_body]
pub struct ExFormatError(std::fmt::Error);

/// A text in quotes, with the characters escaped that do not print.
pub uninterp spec fn quoted_of(text: Seq<char>) -> Seq<char>;

/// `Debug` on `str`: what comes out depends on the string alone. Which characters are escaped,
/// and how, is left unsaid: it follows from the tables of Unicode.
#[verifier::external_body]
pub(crate) fn quoted(text: &str) -> (shown: String)
    ensures
        shown@ == quoted_of(text@),
{
    format!("{text:?}")
}

/// `Formatter::write_str` hands a text on to what is written to. Whether that takes it, and
/// what it holds then, is left unsaid: it is up to what is written to.
#[verifier::external_body]
pub(crate) fn put(f: &mut std::fmt::Formatter<'_>, text: &str) -> (result: std::fmt::Result) {
    f.write_str(text)
}

} // verus!
