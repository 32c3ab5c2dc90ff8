//! Tokenization with a regular expression.
use crate::pattern::{
    alternation, are_offsets, byte_offset, escape, escaped, find_matches, literal_spans, searchable,
    utf8_width,
};
use crate::split::{join_strings, string_views};
use crate::text::{chars_of, spell};
use crate::token::{
    delim_at, is_first_at, occurs_at, push_text, text_between, texts, token_views, tokenize,
    tokens_from, tokens_of, Token, TokenView,
};
use vstd::prelude::*;

verus! {

/// The delimiters that are not empty.
pub open spec fn nonempty(delims: Seq<Seq<char>>) -> Seq<Seq<char>>
    decreases delims.len(),
{
    if delims.len() == 0 {
        seq![]
    } else if delims.last().len() > 0 {
        nonempty(delims.drop_last()).push(delims.last())
    } else {
        nonempty(delims.drop_last())
    }
}

/// The tokens of `t[start..]` where the delimiters stand at the given spans: each span is a
/// delimiter, named by its first position in the list, and what lies between two spans is a
/// token of its own unless it is empty.
pub open spec fn tokens_at(
    t: Seq<char>,
    delims: Seq<Seq<char>>,
    spans: Seq<(int, int)>,
    start: int,
) -> Seq<TokenView>
    decreases spans.len(),
{
    if spans.len() == 0 {
        text_between(t, start, t.len() as int)
    } else {
        let (from, to) = spans[0];
        let content = t.subrange(from, to);
        text_between(t, start, from) + seq![
            TokenView { content, is_delim: true, delim_idx: delims.index_of_first(content) },
        ] + tokens_at(t, delims, spans.drop_first(), to)
    }
}

/// Whether the spans lie in `t` one after the other and each of them spells a delimiter.
pub open spec fn are_delim_spans(
    t: Seq<char>,
    delims: Seq<Seq<char>>,
    spans: Seq<(int, int)>,
) -> bool {
    &&& forall|n: int|
        0 <= n < spans.len() ==> 0 <= (#[trigger] spans[n]).0 <= spans[n].1 <= t.len()
            && delims.contains(t.subrange(spans[n].0, spans[n].1))
    &&& forall|n: int, m: int|
        0 <= n < m < spans.len() ==> (#[trigger] spans[n]).1 <= (#[trigger] spans[m]).0
}

/// A list of spans as mathematical integers.
pub open spec fn span_views(spans: Seq<(usize, usize)>) -> Seq<(int, int)> {
    spans.map_values(|span: (usize, usize)| (span.0 as int, span.1 as int))
}

/// The first position at which `text` stands in the list.
fn position_of(delims: &[&str], text: &str) -> (position: usize)
    requires
        texts(delims@).contains(text@),
    ensures
        texts(delims@).index_of_first(text@) == Some(position as int),
{
    let ghost ds = texts(delims@);
    let mut k: usize = 0;
    while k < delims.len()
        invariant
            k <= delims@.len(),
            ds == texts(delims@),
            ds.contains(text@),
            forall|j: int| 0 <= j < k ==> ds[j] != text@,
        decreases delims@.len() - k,
    {
        assert(ds[k as int] == delims@[k as int]@);
        if *delims[k] == *text {
            proof {
                ds.index_of_first_ensures(text@);
            }
            return k;
        }
        k += 1;
    }
    assert(false);
    k
}

/// The tokens of a string in which the delimiters were found at the given spans of characters.
pub fn tokens_at_spans(s: &str, delims: &[&str], spans: &[(usize, usize)]) -> (tokens: Vec<Token>)
    requires
        are_delim_spans(s@, texts(delims@), span_views(spans@)),
    ensures
        token_views(tokens@) == tokens_at(s@, texts(delims@), span_views(spans@), 0),
{
    let chars = chars_of(s);
    let ghost ds = texts(delims@);
    let ghost sp = span_views(spans@);
    let mut tokens: Vec<Token> = Vec::new();
    let mut start: usize = 0;
    let mut n: usize = 0;
    assert(token_views(tokens@) =~= seq![]);
    assert(sp.skip(0) =~= sp);
    while n < spans.len()
        invariant
            n <= spans@.len(),
            start <= chars@.len(),
            chars@ == s@,
            ds == texts(delims@),
            sp == span_views(spans@),
            are_delim_spans(s@, ds, sp),
            n < sp.len() ==> start <= sp[n as int].0,
            token_views(tokens@) + tokens_at(chars@, ds, sp.skip(n as int), start as int)
                == tokens_at(chars@, ds, sp, 0),
        decreases spans@.len() - n,
    {
        let ghost before = token_views(tokens@);
        let ghost start0 = start as int;
        let (from, to) = spans[n];
        assert(sp[n as int] == (from as int, to as int));
        push_text(&mut tokens, &chars, start, from);
        let ghost with_text = token_views(tokens@);
        let content = spell(&chars, from, to);
        let position = position_of(delims, &content);
        let ghost token = TokenView {
            content: content@,
            is_delim: true,
            delim_idx: Some(position as int),
        };
        tokens.push(Token { content, is_delim: true, delim_idx: Some(position) });
        start = to;
        n += 1;
        assert(token_views(tokens@) =~= with_text.push(token));
        assert(sp.skip(n - 1).drop_first() =~= sp.skip(n as int));
        let ghost rest = tokens_at(chars@, ds, sp.skip(n as int), start as int);
        assert(token_views(tokens@) + rest =~= before + (text_between(chars@, start0, from as int)
            + seq![token] + rest));
    }
    assert(sp.skip(n as int) =~= seq![]);
    push_text(&mut tokens, &chars, start, chars.len());
    tokens
}

pub proof fn lemma_delim_at(t: Seq<char>, delims: Seq<Seq<char>>, i: int, k: int)
    requires
        is_first_at(t, delims, i, k),
    ensures
        delim_at(t, delims, i) == Some(k),
        delims.index_of_first(delims[k]) == Some(k),
{
    let c = choose|c: int| is_first_at(t, delims, i, c);
    assert(c == k);
    delims.index_of_first_ensures(delims[k]);
    let p = delims.index_of_first(delims[k]).unwrap();
    assert(occurs_at(t, delims[p], i));
}

/// Leaving out the empty delimiters changes the positions of the others, not what is found.
pub proof fn lemma_nonempty_delim_at(t: Seq<char>, delims: Seq<Seq<char>>, i: int)
    ensures
        match (delim_at(t, delims, i), delim_at(t, nonempty(delims), i)) {
            (Some(k), Some(n)) => {
                &&& is_first_at(t, delims, i, k)
                &&& is_first_at(t, nonempty(delims), i, n)
                &&& delims[k] == nonempty(delims)[n]
            },
            (None, None) => {
                &&& forall|k: int|
                    0 <= k < delims.len() ==> !occurs_at(t, #[trigger] delims[k], i)
                &&& forall|n: int|
                    0 <= n < nonempty(delims).len() ==> !occurs_at(
                        t,
                        #[trigger] nonempty(delims)[n],
                        i,
                    )
            },
            _ => false,
        },
    decreases delims.len(),
{
    if delims.len() > 0 {
        let short = delims.drop_last();
        let kept = nonempty(delims);
        lemma_nonempty_delim_at(t, short, i);
        match delim_at(t, short, i) {
            Some(k) => {
                let n = delim_at(t, nonempty(short), i).unwrap();
                assert forall|j: int| 0 <= j < k implies !#[trigger] occurs_at(t, delims[j], i) by {
                    assert(short[j] == delims[j]);
                }
                assert forall|j: int| 0 <= j < n implies !#[trigger] occurs_at(t, kept[j], i) by {
                    assert(nonempty(short)[j] == kept[j]);
                }
                assert(is_first_at(t, delims, i, k));
                assert(is_first_at(t, kept, i, n));
                lemma_delim_at(t, delims, i, k);
                lemma_delim_at(t, kept, i, n);
            },
            None => {
                let k = delims.len() - 1;
                assert forall|j: int| 0 <= j < k implies !#[trigger] occurs_at(t, delims[j], i) by {
                    assert(short[j] == delims[j]);
                }
                assert forall|j: int| 0 <= j < nonempty(short).len() implies !#[trigger] occurs_at(
                    t,
                    kept[j],
                    i,
                ) by {
                    assert(nonempty(short)[j] == kept[j]);
                }
                if occurs_at(t, delims[k], i) {
                    assert(is_first_at(t, delims, i, k));
                    lemma_delim_at(t, delims, i, k);
                    assert(is_first_at(t, kept, i, kept.len() - 1));
                    lemma_delim_at(t, kept, i, kept.len() - 1);
                }
            },
        }
    }
}

proof fn lemma_nonempty_searchable(delims: Seq<Seq<char>>)
    ensures
        forall|n: int|
            0 <= n < nonempty(delims).len() ==> (#[trigger] nonempty(delims)[n]).len() > 0,
    decreases delims.len(),
{
    if delims.len() > 0 {
        let short = nonempty(delims.drop_last());
        lemma_nonempty_searchable(delims.drop_last());
        assert forall|n: int| 0 <= n < nonempty(delims).len() implies (#[trigger] nonempty(
            delims,
        )[n]).len() > 0 by {
            if n < short.len() {
                assert(nonempty(delims)[n] == short[n]);
            }
        }
    }
}

/// Cutting at the spans of the non-empty delimiters is tokenizing.
proof fn lemma_tokens_at_literal_spans(t: Seq<char>, delims: Seq<Seq<char>>, from: int, start: int)
    requires
        0 <= start <= from <= t.len(),
    ensures
        tokens_from(t, delims, from, start) == tokens_at(
            t,
            delims,
            literal_spans(t, nonempty(delims), from),
            start,
        ),
        are_delim_spans(t, delims, literal_spans(t, nonempty(delims), from)),
        forall|n: int|
            0 <= n < literal_spans(t, nonempty(delims), from).len() ==> from <= (
            #[trigger] literal_spans(t, nonempty(delims), from)[n]).0,
    decreases t.len() - from,
{
    let literals = nonempty(delims);
    if from < t.len() {
        lemma_nonempty_delim_at(t, delims, from);
        match delim_at(t, delims, from) {
            Some(k) => {
                let n = delim_at(t, literals, from).unwrap();
                let to = from + delims[k].len();
                lemma_delim_at(t, delims, from, k);
                lemma_tokens_at_literal_spans(t, delims, to, to);
                let rest = literal_spans(t, literals, to);
                let spans = literal_spans(t, literals, from);
                assert(spans =~= seq![(from, to)] + rest);
                assert(spans.drop_first() =~= rest);
                assert(forall|m: int| 0 < m < spans.len() ==> spans[m] == rest[m - 1]);
            },
            None => {
                lemma_tokens_at_literal_spans(t, delims, from + 1, start);
            },
        }
    }
}

proof fn lemma_byte_offset_grows(t: Seq<char>, i: int, j: int)
    requires
        0 <= i < j,
    ensures
        0 <= byte_offset(t, i) < byte_offset(t, j),
    decreases j,
{
    if i < j - 1 {
        lemma_byte_offset_grows(t, i, j - 1);
    } else if i > 0 {
        lemma_byte_offset_grows(t, i - 1, i);
    }
}

/// The number of bytes that UTF-8 takes for a character.
fn width(c: char) -> (bytes: usize)
    ensures
        bytes == utf8_width(c),
{
    let code: u32 = c as u32;
    if code < 0x80 {
        1
    } else if code < 0x800 {
        2
    } else if code < 0x1_0000 {
        3
    } else {
        4
    }
}

/// The position of the character at byte offset `target`, sought from the one at `offset`.
fn char_at_offset(
    chars: &Vec<char>,
    position: usize,
    offset: usize,
    target: usize,
    Ghost(goal): Ghost<int>,
) -> (found: usize)
    requires
        position <= goal <= chars@.len(),
        offset == byte_offset(chars@, position as int),
        target == byte_offset(chars@, goal),
    ensures
        found == goal,
{
    let mut i: usize = position;
    let mut at: usize = offset;
    while at < target
        invariant
            i <= goal <= chars.len(),
            at == byte_offset(chars@, i as int),
            target == byte_offset(chars@, goal),
        decreases goal - i,
    {
        proof {
            if i + 1 < goal {
                lemma_byte_offset_grows(chars@, i + 1, goal);
            }
        }
        at += width(chars[i]);
        i += 1;
    }
    proof {
        if i < goal {
            lemma_byte_offset_grows(chars@, i as int, goal);
        }
    }
    i
}

/// The spans of characters at the given byte offsets.
fn char_spans(
    s: &str,
    offsets: &Vec<(usize, usize)>,
    Ghost(spans): Ghost<Seq<(int, int)>>,
) -> (found: Vec<(usize, usize)>)
    requires
        are_offsets(s@, spans, offsets@),
        forall|n: int|
            0 <= n < spans.len() ==> 0 <= (#[trigger] spans[n]).0 <= spans[n].1 <= s@.len(),
        forall|n: int, m: int|
            0 <= n < m < spans.len() ==> (#[trigger] spans[n]).1 <= (#[trigger] spans[m]).0,
    ensures
        span_views(found@) == spans,
{
    let chars = chars_of(s);
    let mut found: Vec<(usize, usize)> = Vec::new();
    let mut position: usize = 0;
    let mut offset: usize = 0;
    let mut n: usize = 0;
    while n < offsets.len()
        invariant
            n <= offsets@.len(),
            found@.len() == n,
            chars@ == s@,
            are_offsets(s@, spans, offsets@),
            forall|n: int|
                0 <= n < spans.len() ==> 0 <= (#[trigger] spans[n]).0 <= spans[n].1 <= s@.len(),
            forall|n: int, m: int|
                0 <= n < m < spans.len() ==> (#[trigger] spans[n]).1 <= (#[trigger] spans[m]).0,
            forall|j: int|
                0 <= j < n ==> (#[trigger] found@[j]).0 == spans[j].0 && found@[j].1 == spans[j].1,
            n < spans.len() ==> position <= spans[n as int].0,
            offset == byte_offset(s@, position as int),
        decreases offsets@.len() - n,
    {
        let ghost span = spans[n as int];
        let (first, second) = offsets[n];
        let from = char_at_offset(&chars, position, offset, first, Ghost(span.0));
        let to = char_at_offset(&chars, from, first, second, Ghost(span.1));
        found.push((from, to));
        position = to;
        offset = second;
        n += 1;
    }
    assert(span_views(found@) =~= spans);
    found
}

/// The regular expression that matches any non-empty delimiter, unless there is none.
fn delim_pattern(delims: &[&str]) -> (pattern: Option<String>)
    ensures
        match pattern {
            Some(p) => {
                &&& searchable(nonempty(texts(delims@)))
                &&& p@ == alternation(nonempty(texts(delims@)))
            },
            None => nonempty(texts(delims@)).len() == 0,
        },
{
    let ghost ds = texts(delims@);
    let ghost esc = |literal: Seq<char>| escaped(literal);
    let mut literals: Vec<String> = Vec::new();
    let mut k: usize = 0;
    assert(ds.take(0) =~= seq![]);
    assert(string_views(literals@) =~= nonempty(ds.take(0)).map_values(esc));
    while k < delims.len()
        invariant
            k <= delims@.len(),
            ds == texts(delims@),
            esc == (|literal: Seq<char>| escaped(literal)),
            string_views(literals@) == nonempty(ds.take(k as int)).map_values(esc),
        decreases delims@.len() - k,
    {
        assert(ds.take(k + 1).drop_last() =~= ds.take(k as int));
        assert(ds.take(k + 1).last() == delims@[k as int]@);
        if !delims[k].is_empty() {
            let ghost kept = string_views(literals@);
            literals.push(escape(delims[k]));
            assert(string_views(literals@) =~= kept.push(escaped(delims@[k as int]@)));
            assert(string_views(literals@) =~= nonempty(ds.take(k + 1)).map_values(esc));
        }
        k += 1;
    }
    assert(ds.take(k as int) =~= ds);
    assert(string_views(literals@).len() == literals@.len());
    if literals.len() == 0 {
        return None;
    }
    proof {
        lemma_nonempty_searchable(ds);
        reveal_strlit("|");
        assert("|"@ =~= seq!['|']);
    }
    Some(join_strings(&literals, "|"))
}

/// Tokenizes a string by a list of delimiters, as [`tokenize`] does, with a regular expression
/// to find them. Where the expression does not compile the string is scanned instead.
pub fn tokenize_regex(s: &str, delims: &[&str]) -> (tokens: Vec<Token>)
    ensures
        token_views(tokens@) == tokens_of(s@, texts(delims@)),
{
    let ghost ds = texts(delims@);
    proof {
        lemma_tokens_at_literal_spans(s@, ds, 0, 0);
    }
    let Some(pattern) = delim_pattern(delims) else {
        return tokenize(s, delims);
    };
    match find_matches(&pattern, s) {
        Some(offsets) => {
            let spans = char_spans(s, &offsets, Ghost(literal_spans(s@, nonempty(ds), 0)));
            tokens_at_spans(s, delims, &spans)
        },
        None => tokenize(s, delims),
    }
}

} // verus!
