//! What holds of the tokens of every string.
use crate::regex_token::{
    are_delim_spans, lemma_delim_at, lemma_nonempty_delim_at, nonempty, span_views, tokens_at,
};
use crate::split::{join, lemma_join_concat};
use crate::store::multi_parts_of;
use crate::token::{
    contents_of, delim_at, delim_token, is_first_at, occurs_at, text_between, texts, token_views,
    tokens_from, tokens_of, Token, TokenView,
};
use vstd::prelude::*;

verus! {

/// Two lists written one after the other.
proof fn lemma_concat(a: Seq<TokenView>, b: Seq<TokenView>)
    ensures
        join(contents_of(a + b), seq![]) == join(contents_of(a), seq![]) + join(
            contents_of(b),
            seq![],
        ),
{
    let none = Seq::<char>::empty();
    let (ca, cb) = (contents_of(a), contents_of(b));
    assert(contents_of(a + b) =~= ca + cb);
    if a.len() == 0 {
        assert(ca + cb =~= cb);
    } else if b.len() == 0 {
        assert(ca + cb =~= ca);
    } else {
        lemma_join_concat(ca, cb, none);
    }
    assert(join(ca + cb, none) =~= join(ca, none) + join(cb, none));
}

proof fn lemma_text_between(t: Seq<char>, from: int, to: int)
    requires
        0 <= from <= to <= t.len(),
    ensures
        join(contents_of(text_between(t, from, to)), seq![]) == t.subrange(from, to),
{
    if from < to {
        assert(contents_of(text_between(t, from, to)) =~= seq![t.subrange(from, to)]);
    } else {
        assert(t.subrange(from, to) =~= seq![]);
    }
}

/// A delimiter that is found stands there, and one that is not does not.
proof fn lemma_found(t: Seq<char>, delims: Seq<Seq<char>>, i: int)
    ensures
        match delim_at(t, delims, i) {
            Some(k) => is_first_at(t, delims, i, k) && delims.index_of_first(delims[k]) == Some(k),
            None => forall|k: int|
                0 <= k < delims.len() ==> !occurs_at(t, #[trigger] delims[k], i),
        },
{
    lemma_nonempty_delim_at(t, delims, i);
    if let Some(k) = delim_at(t, delims, i) {
        lemma_delim_at(t, delims, i, k);
    }
}

proof fn lemma_tokens_from_spell(t: Seq<char>, delims: Seq<Seq<char>>, from: int, start: int)
    requires
        0 <= start <= from <= t.len(),
    ensures
        join(contents_of(tokens_from(t, delims, from, start)), seq![]) == t.subrange(
            start,
            t.len() as int,
        ),
    decreases t.len() - from,
{
    if from >= t.len() {
        lemma_text_between(t, start, t.len() as int);
    } else {
        lemma_found(t, delims, from);
        match delim_at(t, delims, from) {
            Some(k) => {
                let to = from + delims[k].len();
                let (text, delim) = (text_between(t, start, from), seq![delim_token(delims, k)]);
                lemma_text_between(t, start, from);
                lemma_tokens_from_spell(t, delims, to, to);
                lemma_concat(text, delim);
                lemma_concat(text + delim, tokens_from(t, delims, to, to));
                assert(contents_of(delim) =~= seq![delims[k]]);
                assert(t.subrange(start, from) + t.subrange(from, to) + t.subrange(
                    to,
                    t.len() as int,
                ) =~= t.subrange(start, t.len() as int));
            },
            None => {
                lemma_tokens_from_spell(t, delims, from + 1, start);
            },
        }
    }
}

/// The tokens of a string, written one after the other, give the string back. So do the parts
/// of it that are stored.
pub proof fn law_tokens_spell_the_text(t: Seq<char>, delims: Seq<Seq<char>>)
    ensures
        join(contents_of(tokens_of(t, delims)), seq![]) == t,
        join(multi_parts_of(t, delims), seq![]) == t,
{
    lemma_tokens_from_spell(t, delims, 0, 0);
    assert(t.subrange(0, t.len() as int) =~= t);
}

/// Whether a token is what it says: a delimiter, with its first position in the list, or a
/// text that is not empty and holds no delimiter.
pub open spec fn is_sound(token: TokenView, delims: Seq<Seq<char>>) -> bool {
    &&& token.content.len() > 0
    &&& token.is_delim <==> token.delim_idx is Some
    &&& token.delim_idx matches Some(k) ==> {
        &&& 0 <= k < delims.len()
        &&& token.content == delims[k]
        &&& delims.index_of_first(token.content) == Some(k)
    }
    &&& token.delim_idx is None ==> forall|k: int, i: int|
        0 <= k < delims.len() ==> !#[trigger] occurs_at(token.content, delims[k], i)
}

/// Whether all tokens are sound and no two texts stand side by side.
spec fn are_sound(tokens: Seq<TokenView>, delims: Seq<Seq<char>>) -> bool {
    &&& forall|n: int| 0 <= n < tokens.len() ==> is_sound(#[trigger] tokens[n], delims)
    &&& forall|n: int|
        0 < n < tokens.len() ==> (#[trigger] tokens[n]).is_delim || tokens[n - 1].is_delim
}

/// Whether `t[start..from]` is known to hold no delimiter.
spec fn scanned(t: Seq<char>, delims: Seq<Seq<char>>, from: int, start: int) -> bool {
    &&& 0 <= start <= from <= t.len()
    &&& forall|k: int, p: int|
        0 <= k < delims.len() && start <= p < from ==> !#[trigger] occurs_at(t, delims[k], p)
}

proof fn lemma_scanned_text(t: Seq<char>, delims: Seq<Seq<char>>, from: int, start: int)
    requires
        scanned(t, delims, from, start),
    ensures
        are_sound(text_between(t, start, from), delims),
{
    let piece = t.subrange(start, from);
    assert forall|k: int, i: int| 0 <= k < delims.len() implies !#[trigger] occurs_at(
        piece,
        delims[k],
        i,
    ) by {
        let d = delims[k];
        if occurs_at(piece, d, i) {
            assert(piece.subrange(i, i + d.len()) =~= t.subrange(start + i, start + i + d.len()));
            assert(occurs_at(t, d, start + i));
        }
    }
}

proof fn lemma_tokens_from_sound(t: Seq<char>, delims: Seq<Seq<char>>, from: int, start: int)
    requires
        scanned(t, delims, from, start),
    ensures
        are_sound(tokens_from(t, delims, from, start), delims),
    decreases t.len() - from,
{
    let tokens = tokens_from(t, delims, from, start);
    if from >= t.len() {
        lemma_scanned_text(t, delims, from, start);
    } else {
        lemma_found(t, delims, from);
        match delim_at(t, delims, from) {
            Some(k) => {
                let to = from + delims[k].len();
                let text = text_between(t, start, from);
                let rest = tokens_from(t, delims, to, to);
                lemma_scanned_text(t, delims, from, start);
                lemma_tokens_from_sound(t, delims, to, to);
                assert(tokens =~= text + seq![delim_token(delims, k)] + rest);
                assert(is_sound(delim_token(delims, k), delims));
                assert forall|n: int| 0 <= n < tokens.len() implies is_sound(
                    #[trigger] tokens[n],
                    delims,
                ) by {
                    if n < text.len() {
                        assert(tokens[n] == text[n]);
                    } else if n > text.len() {
                        assert(tokens[n] == rest[n - text.len() - 1]);
                    }
                }
                assert forall|n: int| 0 < n < tokens.len() implies (#[trigger] tokens[n]).is_delim
                    || tokens[n - 1].is_delim by {
                    if n > text.len() + 1 {
                        assert(tokens[n] == rest[n - text.len() - 1]);
                        assert(tokens[n - 1] == rest[n - text.len() - 2]);
                    }
                }
            },
            None => {
                lemma_tokens_from_sound(t, delims, from + 1, start);
            },
        }
    }
}

/// Every token is a delimiter, with its first position in the list, or a text that is not
/// empty and holds no delimiter.
pub proof fn law_token_kinds(t: Seq<char>, delims: Seq<Seq<char>>, n: int)
    requires
        0 <= n < tokens_of(t, delims).len(),
    ensures
        is_sound(tokens_of(t, delims)[n], delims),
{
    lemma_tokens_from_sound(t, delims, 0, 0);
}

/// Between two texts there is a delimiter.
pub proof fn law_texts_are_apart(t: Seq<char>, delims: Seq<Seq<char>>, n: int)
    requires
        0 < n < tokens_of(t, delims).len(),
    ensures
        tokens_of(t, delims)[n - 1].is_delim || tokens_of(t, delims)[n].is_delim,
{
    lemma_tokens_from_sound(t, delims, 0, 0);
}

/// Where the `n`-th of the tokens of `t` starts.
pub open spec fn token_start(t: Seq<char>, delims: Seq<Seq<char>>, n: int) -> int {
    join(contents_of(tokens_of(t, delims).take(n)), seq![]).len() as int
}

/// What stands in `t` at a token that starts at `at`: its content, and in a text no position at
/// which a delimiter begins.
spec fn is_placed(t: Seq<char>, delims: Seq<Seq<char>>, token: TokenView, at: int) -> bool {
    &&& 0 <= at
    &&& at + token.content.len() <= t.len()
    &&& token.content == t.subrange(at, at + token.content.len())
    &&& !token.is_delim ==> forall|k: int, p: int|
        0 <= k < delims.len() && at <= p < at + token.content.len() ==> !#[trigger] occurs_at(
            t,
            delims[k],
            p,
        )
    &&& token.delim_idx matches Some(k) ==> forall|j: int|
        0 <= j < k ==> !#[trigger] occurs_at(t, delims[j], at)
}

proof fn lemma_tokens_from_placed(
    t: Seq<char>,
    delims: Seq<Seq<char>>,
    from: int,
    start: int,
    n: int,
)
    requires
        scanned(t, delims, from, start),
        0 <= n < tokens_from(t, delims, from, start).len(),
    ensures
        is_placed(
            t,
            delims,
            tokens_from(t, delims, from, start)[n],
            start + join(
                contents_of(tokens_from(t, delims, from, start).take(n)),
                seq![],
            ).len(),
        ),
    decreases t.len() - from,
{
    let tokens = tokens_from(t, delims, from, start);
    assert(contents_of(tokens.take(0)) =~= seq![]);
    if from < t.len() {
        lemma_found(t, delims, from);
        match delim_at(t, delims, from) {
            Some(k) => {
                let to = from + delims[k].len();
                let text = text_between(t, start, from);
                let delim = seq![delim_token(delims, k)];
                let rest = tokens_from(t, delims, to, to);
                lemma_text_between(t, start, from);
                assert(tokens =~= text + delim + rest);
                if n == text.len() {
                    assert(tokens[n] == delim[0]);
                    assert(tokens.take(n) =~= text);
                } else if n > text.len() {
                    let m = n - text.len() - 1;
                    lemma_tokens_from_placed(t, delims, to, to, m);
                    assert(tokens[n] == rest[m]);
                    assert(tokens.take(n) =~= text + delim + rest.take(m));
                    lemma_concat(text, delim);
                    lemma_concat(text + delim, rest.take(m));
                    assert(contents_of(delim) =~= seq![delims[k]]);
                } else {
                    assert(tokens[n] == text[0]);
                }
            },
            None => {
                lemma_tokens_from_placed(t, delims, from + 1, start, n);
            },
        }
    }
}

/// Each token stands in the string behind those before it, and no delimiter begins at a position
/// of the string that lies in a text.
pub proof fn law_no_delimiter_begins_in_a_text(
    t: Seq<char>,
    delims: Seq<Seq<char>>,
    n: int,
    k: int,
    p: int,
)
    requires
        0 <= n < tokens_of(t, delims).len(),
    ensures
        ({
            let token = tokens_of(t, delims)[n];
            let at = token_start(t, delims, n);
            &&& 0 <= at <= at + token.content.len() <= t.len()
            &&& token.content == t.subrange(at, at + token.content.len())
            &&& !token.is_delim && 0 <= k < delims.len() && at <= p < at + token.content.len()
                ==> !occurs_at(t, delims[k], p)
        }),
{
    lemma_tokens_from_placed(t, delims, 0, 0, n);
}

/// The tokens of a string, told by its characters. They stand one behind the other, from the
/// start of the string to its end, and none is empty. A delimiter is named by its position in the
/// list, and no delimiter listed before it stands at that place. In a text no delimiter begins.
/// And of two neighbours one is a delimiter.
pub proof fn law_tokens(t: Seq<char>, delims: Seq<Seq<char>>, n: int, k: int, p: int)
    ensures
        token_start(t, delims, 0) == 0,
        token_start(t, delims, tokens_of(t, delims).len() as int) == t.len(),
        0 <= n < tokens_of(t, delims).len() ==> {
            let token = tokens_of(t, delims)[n];
            let at = token_start(t, delims, n);
            &&& token_start(t, delims, n + 1) == at + token.content.len()
            &&& token.content.len() > 0
            &&& 0 <= at
            &&& at + token.content.len() <= t.len()
            &&& token.content == t.subrange(at, at + token.content.len())
            &&& token.is_delim <==> token.delim_idx is Some
            &&& token.delim_idx matches Some(e) ==> {
                &&& 0 <= e < delims.len()
                &&& token.content == delims[e]
                &&& 0 <= k < e && delims[k].len() > 0 && at + delims[k].len() <= t.len()
                    ==> t.subrange(at, at + delims[k].len()) != delims[k]
            }
            &&& token.delim_idx is None && 0 <= k < delims.len() && delims[k].len() > 0 && at <= p
                < at + token.content.len() && p + delims[k].len() <= t.len() ==> t.subrange(
                p,
                p + delims[k].len(),
            ) != delims[k]
            &&& n > 0 ==> token.is_delim || tokens_of(t, delims)[n - 1].is_delim
        },
{
    let tokens = tokens_of(t, delims);
    assert(tokens.take(0) =~= seq![]);
    assert(contents_of(tokens.take(0)) =~= seq![]);
    assert(tokens.take(tokens.len() as int) =~= tokens);
    law_tokens_spell_the_text(t, delims);
    if 0 <= n < tokens.len() {
        let at = token_start(t, delims, n);
        law_token_kinds(t, delims, n);
        lemma_tokens_from_placed(t, delims, 0, 0, n);
        assert(tokens.take(n + 1) =~= tokens.take(n) + seq![tokens[n]]);
        lemma_concat(tokens.take(n), seq![tokens[n]]);
        assert(contents_of(seq![tokens[n]]) =~= seq![tokens[n].content]);
        if n > 0 {
            law_texts_are_apart(t, delims, n);
        }
        assert(is_placed(t, delims, tokens[n], at));
        assert(token_start(t, delims, n + 1) == at + tokens[n].content.len());
        if 0 <= k < delims.len() {
            let d = delims[k];
            assert(d.len() > 0 && 0 <= at && at + d.len() <= t.len() && t.subrange(at, at + d.len())
                == d ==> occurs_at(t, delims[k], at));
            assert(d.len() > 0 && 0 <= p && p + d.len() <= t.len() && t.subrange(p, p + d.len())
                == d ==> occurs_at(t, delims[k], p));
        }
    }
}

/// What tokens and lists of tokens and of delimiters stand for.
pub proof fn law_token_views(tokens: Seq<Token>, views: Seq<TokenView>, strs: Seq<&str>, n: int)
    ensures
        token_views(tokens).len() == tokens.len(),
        0 <= n < tokens.len() ==> {
            &&& token_views(tokens)[n].content == tokens[n].content@
            &&& token_views(tokens)[n].is_delim == tokens[n].is_delim
            &&& token_views(tokens)[n].delim_idx is Some <==> tokens[n].delim_idx is Some
            &&& tokens[n].delim_idx matches Some(k) ==> token_views(tokens)[n].delim_idx == Some(
                k as int,
            )
        },
        contents_of(views).len() == views.len(),
        0 <= n < views.len() ==> contents_of(views)[n] == views[n].content,
        texts(strs).len() == strs.len(),
        0 <= n < strs.len() ==> texts(strs)[n] == strs[n]@,
{
}

/// Spans are given in characters, one behind the other, and each is the place of a delimiter.
pub proof fn law_spans(t: Seq<char>, delims: Seq<Seq<char>>, given: Seq<(usize, usize)>, n: int)
    ensures
        span_views(given).len() == given.len(),
        0 <= n < given.len() ==> span_views(given)[n] == (given[n].0 as int, given[n].1 as int),
        are_delim_spans(t, delims, span_views(given)) <==> {
            &&& forall|m: int|
                0 <= m < given.len() ==> (#[trigger] given[m]).0 <= given[m].1 <= t.len() && exists|
                    k: int,
                |
                    0 <= k < delims.len() && #[trigger] delims[k] == t.subrange(
                        given[m].0 as int,
                        given[m].1 as int,
                    )
            &&& forall|m: int, l: int|
                0 <= m < l < given.len() ==> (#[trigger] given[m]).1 <= (#[trigger] given[l]).0
        },
{
    let spans = span_views(given);
    assert forall|m: int| 0 <= m < given.len() implies #[trigger] spans[m] == (
        given[m].0 as int,
        given[m].1 as int,
    ) by {}
    if are_delim_spans(t, delims, spans) {
        assert forall|m: int| 0 <= m < given.len() implies (#[trigger] given[m]).0 <= given[m].1
            <= t.len() && exists|k: int|
            0 <= k < delims.len() && #[trigger] delims[k] == t.subrange(
                given[m].0 as int,
                given[m].1 as int,
            ) by {
            assert(spans[m].0 <= spans[m].1);
        }
        assert forall|m: int, l: int| 0 <= m < l < given.len() implies (#[trigger] given[m]).1 <= (
        #[trigger] given[l]).0 by {
            assert(spans[m].1 <= spans[l].0);
        }
    } else if {
        &&& forall|m: int|
            0 <= m < given.len() ==> (#[trigger] given[m]).0 <= given[m].1 <= t.len() && exists|
                k: int,
            |
                0 <= k < delims.len() && #[trigger] delims[k] == t.subrange(
                    given[m].0 as int,
                    given[m].1 as int,
                )
        &&& forall|m: int, l: int|
            0 <= m < l < given.len() ==> (#[trigger] given[m]).1 <= (#[trigger] given[l]).0
    } {
        assert forall|m: int| 0 <= m < spans.len() implies 0 <= (#[trigger] spans[m]).0
            <= spans[m].1 <= t.len() && delims.contains(t.subrange(spans[m].0, spans[m].1)) by {
            assert(given[m].0 <= given[m].1);
        }
        assert forall|m: int, l: int| 0 <= m < l < spans.len() implies (#[trigger] spans[m]).1 <= (
        #[trigger] spans[l]).0 by {
            assert(given[m].1 <= given[l].0);
        }
        assert(are_delim_spans(t, delims, spans));
    }
}

/// Tokens at given spans: what stands before the first span is a text unless it is empty, the
/// span itself a delimiter, and what follows is cut at the other spans.
pub proof fn law_tokens_at_spans(
    t: Seq<char>,
    delims: Seq<Seq<char>>,
    from: int,
    to: int,
    spans: Seq<(int, int)>,
    start: int,
    k: int,
)
    requires
        0 <= start <= from <= to <= t.len(),
        0 <= k < delims.len(),
        delims[k] == t.subrange(from, to),
        forall|j: int| 0 <= j < k ==> #[trigger] delims[j] != delims[k],
    ensures
        tokens_at(t, delims, seq![(from, to)] + spans, start) == (if start < from {
            seq![TokenView { content: t.subrange(start, from), is_delim: false, delim_idx: None }]
        } else {
            seq![]
        }) + seq![TokenView { content: delims[k], is_delim: true, delim_idx: Some(k) }] + tokens_at(
            t,
            delims,
            spans,
            to,
        ),
        tokens_at(t, delims, seq![], start) == (if start < t.len() {
            seq![
                TokenView {
                    content: t.subrange(start, t.len() as int),
                    is_delim: false,
                    delim_idx: None,
                },
            ]
        } else {
            seq![]
        }),
{
    assert((seq![(from, to)] + spans).drop_first() =~= spans);
    delims.index_of_first_ensures(delims[k]);
}

proof fn lemma_tokens_from_nonempty(t: Seq<char>, delims: Seq<Seq<char>>, from: int, start: int)
    requires
        0 <= start <= from <= t.len(),
    ensures
        contents_of(tokens_from(t, delims, from, start)) == contents_of(
            tokens_from(t, nonempty(delims), from, start),
        ),
    decreases t.len() - from,
{
    let kept = nonempty(delims);
    if from < t.len() {
        lemma_nonempty_delim_at(t, delims, from);
        match delim_at(t, delims, from) {
            Some(k) => {
                let n = delim_at(t, kept, from).unwrap();
                let to = from + delims[k].len();
                lemma_tokens_from_nonempty(t, delims, to, to);
                let text = text_between(t, start, from);
                let (rest, rest_kept) = (
                    tokens_from(t, delims, to, to),
                    tokens_from(t, kept, to, to),
                );
                assert(contents_of(text + seq![delim_token(delims, k)] + rest) =~= contents_of(text)
                    + seq![delims[k]] + contents_of(rest));
                assert(contents_of(text + seq![delim_token(kept, n)] + rest_kept) =~= contents_of(
                    text,
                ) + seq![kept[n]] + contents_of(rest_kept));
            },
            None => {
                lemma_tokens_from_nonempty(t, delims, from + 1, start);
            },
        }
    }
}

/// Empty delimiters are passed over: without them the string is cut at the same places.
pub proof fn law_empty_delimiters_are_passed_over(t: Seq<char>, delims: Seq<Seq<char>>)
    ensures
        contents_of(tokens_of(t, delims)) == contents_of(tokens_of(t, nonempty(delims))),
{
    lemma_tokens_from_nonempty(t, delims, 0, 0);
}

proof fn lemma_tokens_from_uncut(t: Seq<char>, delims: Seq<Seq<char>>, from: int, start: int)
    requires
        0 <= start <= from <= t.len(),
        forall|k: int| 0 <= k < delims.len() ==> (#[trigger] delims[k]).len() == 0,
    ensures
        tokens_from(t, delims, from, start) == text_between(t, start, t.len() as int),
    decreases t.len() - from,
{
    if from < t.len() {
        lemma_tokens_from_uncut(t, delims, from + 1, start);
    }
}

/// Where there is no delimiter or only empty ones, a string is its only token, unless it is
/// empty and has none.
pub proof fn law_without_delimiters_the_text_is_whole(t: Seq<char>, delims: Seq<Seq<char>>)
    requires
        forall|k: int| 0 <= k < delims.len() ==> (#[trigger] delims[k]).len() == 0,
    ensures
        t.len() == 0 ==> tokens_of(t, delims).len() == 0,
        t.len() > 0 ==> tokens_of(t, delims) == seq![
            TokenView { content: t, is_delim: false, delim_idx: None },
        ],
{
    lemma_tokens_from_uncut(t, delims, 0, 0);
    assert(t.subrange(0, t.len() as int) =~= t);
}

} // verus!
