//! Tokenization: cutting a string at every occurrence of a delimiter.
use crate::text::{chars_of, spell};
use vstd::prelude::*;

verus! {

/// A piece of a tokenized string: a delimiter, or the text between delimiters.
#[derive(Debug, PartialEq, Eq)]
pub struct Token {
    /// The piece itself.
    pub content: String,
    /// Whether the piece is a delimiter.
    pub is_delim: bool,
    /// For a delimiter, its position in the list of delimiters.
    pub delim_idx: Option<usize>,
}

/// What a [`Token`] stands for.
#[verifier::ext_equal]
pub struct TokenView {
    pub content: Seq<char>,
    pub is_delim: bool,
    pub delim_idx: Option<int>,
}

impl View for Token {
    type V = TokenView;

    open spec fn view(&self) -> TokenView {
        TokenView {
            content: self.content@,
            is_delim: self.is_delim,
            delim_idx: match self.delim_idx {
                Some(k) => Some(k as int),
                None => None,
            },
        }
    }
}

impl Default for Token {
    /// An empty text.
    fn default() -> (token: Self)
        ensures
            token@ == (TokenView {
                content: Seq::<char>::empty(),
                is_delim: false,
                delim_idx: None,
            }),
    {
        Token { content: String::new(), is_delim: false, delim_idx: None }
    }
}

/// What a list of tokens stands for.
pub open spec fn token_views(tokens: Seq<Token>) -> Seq<TokenView> {
    tokens.map_values(|token: Token| token@)
}

/// The contents of a list of tokens.
pub open spec fn contents_of(tokens: Seq<TokenView>) -> Seq<Seq<char>> {
    tokens.map_values(|token: TokenView| token.content)
}

/// The texts of a list of string slices.
pub open spec fn texts(strs: Seq<&str>) -> Seq<Seq<char>> {
    strs.map_values(|s: &str| s@)
}

/// Whether the non-empty text `d` stands in `t` at position `i`.
pub open spec fn occurs_at(t: Seq<char>, d: Seq<char>, i: int) -> bool {
    &&& d.len() > 0
    &&& 0 <= i
    &&& i + d.len() <= t.len()
    &&& t.subrange(i, i + d.len()) == d
}

/// Whether `delims[k]` is the first of the delimiters that stands in `t` at position `i`.
pub open spec fn is_first_at(t: Seq<char>, delims: Seq<Seq<char>>, i: int, k: int) -> bool {
    &&& 0 <= k < delims.len()
    &&& occurs_at(t, delims[k], i)
    &&& forall|j: int| 0 <= j < k ==> !#[trigger] occurs_at(t, delims[j], i)
}

/// The first of the delimiters that stands in `t` at position `i`. Empty delimiters never do.
pub open spec fn delim_at(t: Seq<char>, delims: Seq<Seq<char>>, i: int) -> Option<int> {
    if exists|k: int| is_first_at(t, delims, i, k) {
        Some(choose|k: int| is_first_at(t, delims, i, k))
    } else {
        None
    }
}

/// The token for the text `t[from..to]`, or nothing where that is empty.
pub open spec fn text_between(t: Seq<char>, from: int, to: int) -> Seq<TokenView> {
    if from < to {
        seq![TokenView { content: t.subrange(from, to), is_delim: false, delim_idx: None }]
    } else {
        seq![]
    }
}

/// The token for the `k`-th delimiter.
pub open spec fn delim_token(delims: Seq<Seq<char>>, k: int) -> TokenView {
    TokenView { content: delims[k], is_delim: true, delim_idx: Some(k) }
}

/// The tokens of `t[start..]`, of which `t[start..from]` is known to hold no delimiter: from
/// left to right, at each position the first delimiter in list order that stands there is cut
/// out, and what lies between two cuts is a token of its own unless it is empty.
pub open spec fn tokens_from(t: Seq<char>, delims: Seq<Seq<char>>, from: int, start: int) -> Seq<
    TokenView,
>
    decreases t.len() - from,
{
    if from >= t.len() {
        text_between(t, start, t.len() as int)
    } else {
        match delim_at(t, delims, from) {
            Some(k) => text_between(t, start, from) + seq![delim_token(delims, k)] + tokens_from(
                t,
                delims,
                from + delims[k].len(),
                from + delims[k].len(),
            ),
            None => tokens_from(t, delims, from + 1, start),
        }
    }
}

/// The tokens of `t`.
pub open spec fn tokens_of(t: Seq<char>, delims: Seq<Seq<char>>) -> Seq<TokenView> {
    tokens_from(t, delims, 0, 0)
}

/// Whether `d` stands in `chars` at `i`.
pub(crate) fn occurs(chars: &Vec<char>, d: &Vec<char>, i: usize) -> (found: bool)
    requires
        i <= chars@.len(),
    ensures
        found == occurs_at(chars@, d@, i as int),
{
    if d.len() == 0 || chars.len() - i < d.len() {
        return false;
    }
    let mut n: usize = 0;
    while n < d.len()
        invariant
            n <= d@.len(),
            i + d@.len() <= chars.len(),
            chars@.subrange(i as int, i + n) == d@.take(n as int),
        decreases d@.len() - n,
    {
        if chars[i + n] != d[n] {
            assert(chars@.subrange(i as int, i + d@.len())[n as int] != d@[n as int]);
            return false;
        }
        n += 1;
        assert(chars@.subrange(i as int, i + n) =~= chars@.subrange(i as int, i + n - 1).push(
            d@[n - 1],
        ));
        assert(d@.take(n as int) =~= d@.take(n - 1).push(d@[n - 1]));
    }
    assert(d@.take(n as int) =~= d@);
    true
}

/// The characters of each string of a list.
pub open spec fn char_lists(lists: Seq<Vec<char>>) -> Seq<Seq<char>> {
    lists.map_values(|list: Vec<char>| list@)
}

/// The first delimiter that stands in `chars` at `i`.
fn find_delim(chars: &Vec<char>, delims: &Vec<Vec<char>>, i: usize) -> (found: Option<usize>)
    requires
        i <= chars@.len(),
    ensures
        match found {
            Some(k) => delim_at(chars@, char_lists(delims@), i as int) == Some(k as int)
                && is_first_at(chars@, char_lists(delims@), i as int, k as int),
            None => delim_at(chars@, char_lists(delims@), i as int) is None,
        },
{
    let ghost ds = char_lists(delims@);
    let mut k: usize = 0;
    while k < delims.len()
        invariant
            k <= delims@.len(),
            i <= chars@.len(),
            ds == char_lists(delims@),
            forall|j: int| 0 <= j < k ==> !#[trigger] occurs_at(chars@, ds[j], i as int),
        decreases delims@.len() - k,
    {
        if occurs(chars, &delims[k], i) {
            assert(is_first_at(chars@, ds, i as int, k as int));
            let ghost c = choose|c: int| is_first_at(chars@, ds, i as int, c);
            assert(c == k);
            return Some(k);
        }
        k += 1;
    }
    None
}

/// The characters of each delimiter.
fn delim_chars(delims: &[&str]) -> (lists: Vec<Vec<char>>)
    ensures
        char_lists(lists@) == texts(delims@),
{
    let mut lists: Vec<Vec<char>> = Vec::new();
    let mut k: usize = 0;
    while k < delims.len()
        invariant
            k <= delims@.len(),
            lists@.len() == k,
            forall|j: int| 0 <= j < k ==> #[trigger] lists@[j]@ == delims@[j]@,
        decreases delims@.len() - k,
    {
        lists.push(chars_of(delims[k]));
        k += 1;
    }
    assert(char_lists(lists@) =~= texts(delims@));
    lists
}

/// The token for `chars[from..to]`, appended unless it is empty.
pub(crate) fn push_text(tokens: &mut Vec<Token>, chars: &Vec<char>, from: usize, to: usize)
    requires
        from <= to <= chars@.len(),
    ensures
        token_views(final(tokens)@) == token_views(old(tokens)@) + text_between(
            chars@,
            from as int,
            to as int,
        ),
{
    if from < to {
        tokens.push(Token { content: spell(chars, from, to), is_delim: false, delim_idx: None });
    }
    assert(token_views(tokens@) =~= token_views(old(tokens)@) + text_between(
        chars@,
        from as int,
        to as int,
    ));
}

/// Tokenizes a string by a list of delimiters. The delimiters are tokens of their own; an
/// empty delimiter is passed over, and the others keep their positions.
///
/// Where several delimiters stand at one place, the one listed first is taken.
pub fn tokenize(s: &str, delims: &[&str]) -> (tokens: Vec<Token>)
    ensures
        token_views(tokens@) == tokens_of(s@, texts(delims@)),
{
    let chars = chars_of(s);
    let lists = delim_chars(delims);
    let ghost ds = texts(delims@);
    assert(char_lists(lists@).len() == ds.len());
    let mut tokens: Vec<Token> = Vec::new();
    let mut start: usize = 0;
    let mut i: usize = 0;
    assert(token_views(tokens@) =~= seq![]);
    while i < chars.len()
        invariant
            start <= i <= chars@.len(),
            chars@ == s@,
            ds == texts(delims@),
            ds == char_lists(lists@),
            lists@.len() == delims@.len(),
            token_views(tokens@) + tokens_from(chars@, ds, i as int, start as int) == tokens_of(
                chars@,
                ds,
            ),
        decreases chars@.len() - i,
    {
        let ghost before = token_views(tokens@);
        let ghost (i0, start0) = (i as int, start as int);
        match find_delim(&chars, &lists, i) {
            Some(k) => {
                push_text(&mut tokens, &chars, start, i);
                let ghost with_text = token_views(tokens@);
                tokens.push(
                    Token {
                        content: String::from(delims[k]),
                        is_delim: true,
                        delim_idx: Some(k),
                    },
                );
                i = i + lists[k].len();
                start = i;
                assert(token_views(tokens@) =~= with_text + seq![delim_token(ds, k as int)]);
                assert(token_views(tokens@) + tokens_from(chars@, ds, i as int, start as int)
                    =~= before + (text_between(chars@, start0, i0) + seq![
                    delim_token(ds, k as int),
                ] + tokens_from(chars@, ds, i as int, start as int)));
            },
            None => {
                i += 1;
            },
        }
    }
    push_text(&mut tokens, &chars, start, i);
    tokens
}

} // verus!
