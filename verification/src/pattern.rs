//! Finding delimiters with a regular expression.
use crate::split::join;
use crate::token::delim_at;
use vstd::prelude::*;
use vstd::utf8::{encode_scalar, encode_utf8};

verus! {

/// The characters that have a meaning of their own in a regular expression.
pub open spec fn is_meta(c: char) -> bool {
    ||| c == '\\' || c == '.' || c == '+' || c == '*' || c == '?' || c == '('
    ||| c == ')' || c == '|' || c == '[' || c == ']' || c == '{' || c == '}'
    ||| c == '^' || c == '$' || c == '#' || c == '&' || c == '-' || c == '~'
}

/// `t` with a backslash before each meta character.
pub open spec fn escaped(t: Seq<char>) -> Seq<char>
    decreases t.len(),
{
    if t.len() == 0 {
        seq![]
    } else if is_meta(t.last()) {
        escaped(t.drop_last()).push('\\').push(t.last())
    } else {
        escaped(t.drop_last()).push(t.last())
    }
}

/// The regular expression that matches any of the literals, earlier ones preferred.
pub open spec fn alternation(literals: Seq<Seq<char>>) -> Seq<char> {
    join(literals.map_values(|literal: Seq<char>| escaped(literal)), seq!['|'])
}

/// Whether there are literals at all, none of them empty.
pub open spec fn searchable(literals: Seq<Seq<char>>) -> bool {
    &&& literals.len() > 0
    &&& forall|k: int| 0 <= k < literals.len() ==> #[trigger] literals[k].len() > 0
}

/// The spans of `t[from..]` at which a literal stands: leftmost first, at one place the literal
/// that is listed first, and without overlap.
pub open spec fn literal_spans(t: Seq<char>, literals: Seq<Seq<char>>, from: int) -> Seq<(int, int)>
    decreases t.len() - from,
{
    if from >= t.len() {
        seq![]
    } else {
        match delim_at(t, literals, from) {
            Some(k) => seq![(from, from + literals[k].len())] + literal_spans(
                t,
                literals,
                from + literals[k].len(),
            ),
            None => literal_spans(t, literals, from + 1),
        }
    }
}

/// The number of bytes that UTF-8 takes for a character.
pub open spec fn utf8_width(c: char) -> int {
    if (c as u32) < 0x80 {
        1
    } else if (c as u32) < 0x800 {
        2
    } else if (c as u32) < 0x1_0000 {
        3
    } else {
        4
    }
}

/// The byte offset of the `i`-th character of `t`.
pub open spec fn byte_offset(t: Seq<char>, i: int) -> int
    decreases i,
{
    if i <= 0 {
        0
    } else {
        byte_offset(t, i - 1) + utf8_width(t[i - 1])
    }
}

/// Whether `offsets` are the byte offsets of the spans of characters `spans` of `t`.
pub open spec fn are_offsets(
    t: Seq<char>,
    spans: Seq<(int, int)>,
    offsets: Seq<(usize, usize)>,
) -> bool {
    &&& offsets.len() == spans.len()
    &&& forall|k: int|
        0 <= k < spans.len() ==> {
            &&& (#[trigger] offsets[k]).0 == byte_offset(t, spans[k].0)
            &&& offsets[k].1 == byte_offset(t, spans[k].1)
        }
}

/// `regex::escape` puts a backslash before each meta character.
#[verifier::external_body]
pub(crate) fn escape(text: &str) -> (literal: String)
    ensures
        literal@ == escaped(text@),
{
    regex::escape(text)
}

/// `Regex::new` and `Regex::find_iter`: the byte offsets of the successive matches of an
/// alternation of literals. Matches are leftmost, do not overlap, and where several
/// alternatives match at one place the first is taken. `None` where the expression does not
/// compile, which may be for its size; when that happens is left unsaid, since the limit is on
/// the memory that the compiled expression takes.
#[verifier::external_body]
pub(crate) fn find_matches(pattern: &str, text: &str) -> (found: Option<Vec<(usize, usize)>>)
    requires
        exists|literals: Seq<Seq<char>>|
            searchable(literals) && pattern@ == #[trigger] alternation(literals),
    ensures
        found matches Some(offsets) ==> forall|literals: Seq<Seq<char>>|
            searchable(literals) && pattern@ == #[trigger] alternation(literals) ==> are_offsets(
                text@,
                literal_spans(text@, literals, 0),
                offsets@,
            ),
{
    let compiled = regex::Regex::new(pattern).ok()?;
    Some(compiled.find_iter(text).map(|found| (found.start(), found.end())).collect())
}

/// Escaping, told by how one more character changes it: a backslash comes before each of the
/// characters with a meaning of their own, and nothing else changes.
pub proof fn law_escaping(t: Seq<char>, c: char)
    ensures
        escaped(Seq::<char>::empty()) == Seq::<char>::empty(),
        "\\.+*?()|[]{}^$#&-~"@.contains(c) ==> escaped(t.push(c)) == escaped(t) + seq!['\\', c],
        !"\\.+*?()|[]{}^$#&-~"@.contains(c) ==> escaped(t.push(c)) == escaped(t) + seq![c],
{
    let metas = "\\.+*?()|[]{}^$#&-~"@;
    reveal_strlit("\\.+*?()|[]{}^$#&-~");
    assert(t.push(c).drop_last() =~= t);
    assert(is_meta(c) ==> metas.contains(c)) by {
        assert(metas[0] == '\\' && metas[1] == '.' && metas[2] == '+' && metas[3] == '*');
        assert(metas[4] == '?' && metas[5] == '(' && metas[6] == ')' && metas[7] == '|');
        assert(metas[8] == '[' && metas[9] == ']' && metas[10] == '{' && metas[11] == '}');
        assert(metas[12] == '^' && metas[13] == '$' && metas[14] == '#' && metas[15] == '&');
        assert(metas[16] == '-' && metas[17] == '~');
    }
    if is_meta(c) {
        assert(escaped(t.push(c)) =~= escaped(t) + seq!['\\', c]);
    } else {
        assert(escaped(t.push(c)) =~= escaped(t) + seq![c]);
    }
}

/// The expression for a list of literals, told by how one more literal changes it: the literals
/// stand in their order, escaped, with bars between them.
pub proof fn law_alternation(literals: Seq<Seq<char>>, literal: Seq<char>)
    ensures
        alternation(seq![literal]) == escaped(literal),
        literals.len() > 0 ==> alternation(literals.push(literal)) == alternation(literals) + seq![
            '|',
        ] + escaped(literal),
        searchable(literals) <==> literals.len() > 0 && !literals.contains(Seq::<char>::empty()),
{
    let esc = |t: Seq<char>| escaped(t);
    assert(seq![literal].map_values(esc) =~= seq![escaped(literal)]);
    assert(literals.push(literal).map_values(esc).drop_last() =~= literals.map_values(esc));
    if literals.contains(Seq::<char>::empty()) {
        let k = choose|k: int|
            0 <= k < literals.len() && literals[k] == Seq::<char>::empty();
        assert(literals[k].len() == 0);
    } else {
        assert forall|k: int| 0 <= k < literals.len() implies #[trigger] literals[k].len() > 0 by {
            if literals[k].len() == 0 {
                assert(literals[k] =~= Seq::<char>::empty());
            }
        }
    }
}

proof fn lemma_encode_push(t: Seq<char>, c: char)
    ensures
        encode_utf8(t.push(c)) == encode_utf8(t) + encode_scalar(c as u32),
    decreases t.len(),
{
    reveal_with_fuel(encode_utf8, 2);
    if t.len() == 0 {
        assert(t.push(c).drop_first() =~= seq![]);
        assert(encode_utf8(t.push(c)) =~= encode_scalar(c as u32));
        assert(encode_utf8(t) + encode_scalar(c as u32) =~= encode_scalar(c as u32));
    } else {
        lemma_encode_push(t.drop_first(), c);
        assert(t.push(c).drop_first() =~= t.drop_first().push(c));
        assert(encode_utf8(t.push(c)) =~= encode_utf8(t) + encode_scalar(c as u32));
    }
}

proof fn lemma_width(c: char)
    ensures
        encode_scalar(c as u32).len() == utf8_width(c),
{
    vstd::utf8::char_is_scalar(c);
}

/// The byte offset of a character is the number of bytes that UTF-8 takes for those before it.
pub proof fn law_byte_offsets(t: Seq<char>, i: int)
    requires
        0 <= i <= t.len(),
    ensures
        byte_offset(t, i) == encode_utf8(t.take(i)).len(),
    decreases i,
{
    if i > 0 {
        law_byte_offsets(t, i - 1);
        assert(t.take(i) =~= t.take(i - 1).push(t[i - 1]));
        lemma_encode_push(t.take(i - 1), t[i - 1]);
        lemma_width(t[i - 1]);
    } else {
        assert(t.take(0) =~= seq![]);
    }
}

/// Offsets of spans are the offsets of where they begin and end.
pub proof fn law_offsets_of_spans(
    t: Seq<char>,
    spans: Seq<(int, int)>,
    offsets: Seq<(usize, usize)>,
    k: int,
)
    requires
        are_offsets(t, spans, offsets),
    ensures
        offsets.len() == spans.len(),
        0 <= k < spans.len() ==> offsets[k].0 == byte_offset(t, spans[k].0) && offsets[k].1
            == byte_offset(t, spans[k].1),
{
}

} // verus!
