//! Splitting a string at a delimiter, and joining parts back together.
use crate::text::{chars_of, spell};
use crate::token::{occurs, occurs_at};
use std::sync::Arc;
use vstd::prelude::*;

verus! {

/// The texts of a list of strings.
pub open spec fn string_views(strings: Seq<String>) -> Seq<Seq<char>> {
    strings.map_values(|s: String| s@)
}

/// The texts of a list of shared strings.
pub open spec fn shared_views(strings: Seq<Arc<String>>) -> Seq<Seq<char>> {
    strings.map_values(|s: Arc<String>| s@)
}

/// `parts` with `sep` between each two.
pub open spec fn join(parts: Seq<Seq<char>>, sep: Seq<char>) -> Seq<char>
    decreases parts.len(),
{
    if parts.len() == 0 {
        seq![]
    } else if parts.len() == 1 {
        parts[0]
    } else {
        join(parts.drop_last(), sep) + sep + parts.last()
    }
}

/// The parts of `t[start..]`, of which `t[start..from]` is known to hold no delimiter: cut at
/// the occurrences of the non-empty delimiter `d`, found from left to right without overlap.
pub open spec fn split_from(t: Seq<char>, d: Seq<char>, from: int, start: int) -> Seq<Seq<char>>
    decreases t.len() - from,
{
    if from + d.len() > t.len() || d.len() == 0 {
        seq![t.subrange(start, t.len() as int)]
    } else if occurs_at(t, d, from) {
        seq![t.subrange(start, from)] + split_from(t, d, from + d.len(), from + d.len())
    } else {
        split_from(t, d, from + 1, start)
    }
}

/// The parts of `t` between the occurrences of `d`. The empty delimiter stands before each
/// character and at the end, so it leaves each character alone, between two empty parts.
pub open spec fn split_parts(t: Seq<char>, d: Seq<char>) -> Seq<Seq<char>> {
    if d.len() == 0 {
        seq![Seq::<char>::empty()] + Seq::new(t.len(), |i: int| seq![t[i]]) + seq![
            Seq::<char>::empty(),
        ]
    } else {
        split_from(t, d, 0, 0)
    }
}

/// Splits a string at each occurrence of `delim`.
pub(crate) fn split(s: &str, delim: &str) -> (parts: Vec<String>)
    ensures
        string_views(parts@) == split_parts(s@, delim@),
{
    let chars = chars_of(s);
    let d = chars_of(delim);
    let mut parts: Vec<String> = Vec::new();
    if d.len() == 0 {
        parts.push(String::new());
        let mut i: usize = 0;
        while i < chars.len()
            invariant
                i <= chars@.len(),
                parts@.len() == i + 1,
                parts@[0]@ == Seq::<char>::empty(),
                forall|j: int| 0 < j <= i ==> #[trigger] parts@[j]@ == seq![chars@[j - 1]],
            decreases chars@.len() - i,
        {
            parts.push(spell(&chars, i, i + 1));
            i += 1;
        }
        parts.push(String::new());
        assert(string_views(parts@) =~= split_parts(chars@, d@));
        return parts;
    }
    let mut start: usize = 0;
    let mut i: usize = 0;
    assert(string_views(parts@) =~= seq![]);
    while chars.len() - i >= d.len()
        invariant
            start <= i <= chars@.len(),
            d@.len() > 0,
            string_views(parts@) + split_from(chars@, d@, i as int, start as int) == split_from(
                chars@,
                d@,
                0,
                0,
            ),
        decreases chars@.len() - i,
    {
        if occurs(&chars, &d, i) {
            let ghost before = string_views(parts@);
            let ghost part = chars@.subrange(start as int, i as int);
            parts.push(spell(&chars, start, i));
            i = i + d.len();
            start = i;
            assert(string_views(parts@) =~= before.push(part));
            assert(before.push(part) + split_from(chars@, d@, i as int, i as int) =~= before + (
            seq![part] + split_from(chars@, d@, i as int, i as int)));
        } else {
            i += 1;
        }
    }
    let ghost before = string_views(parts@);
    parts.push(spell(&chars, start, chars.len()));
    assert(string_views(parts@) =~= before + seq![
        chars@.subrange(start as int, chars@.len() as int),
    ]);
    parts
}

/// Joins strings with `sep` between each two.
pub(crate) fn join_strings(parts: &Vec<String>, sep: &str) -> (text: String)
    ensures
        text@ == join(string_views(parts@), sep@),
{
    let ghost ps = string_views(parts@);
    let mut text = String::new();
    let mut n: usize = 0;
    assert(text@ =~= join(ps.take(0), sep@));
    while n < parts.len()
        invariant
            n <= parts@.len(),
            ps == string_views(parts@),
            text@ == join(ps.take(n as int), sep@),
        decreases parts@.len() - n,
    {
        if n > 0 {
            text.append(sep);
        }
        text.append(parts[n].as_str());
        assert(ps.take(n + 1).drop_last() =~= ps.take(n as int));
        assert(text@ =~= join(ps.take(n + 1), sep@));
        n += 1;
    }
    assert(ps.take(n as int) =~= ps);
    text
}

/// Two non-empty lists joined one after the other.
pub proof fn lemma_join_concat(a: Seq<Seq<char>>, b: Seq<Seq<char>>, sep: Seq<char>)
    requires
        a.len() > 0,
        b.len() > 0,
    ensures
        join(a + b, sep) == join(a, sep) + sep + join(b, sep),
    decreases b.len(),
{
    assert((a + b).drop_last() =~= a + b.drop_last());
    assert((a + b).last() == b.last());
    if b.len() == 1 {
        assert(a + b.drop_last() =~= a);
    } else {
        lemma_join_concat(a, b.drop_last(), sep);
        assert(join(a, sep) + sep + join(b.drop_last(), sep) + sep + b.last() =~= join(a, sep) + sep
            + (join(b.drop_last(), sep) + sep + b.last()));
    }
}

proof fn lemma_join_split_from(t: Seq<char>, d: Seq<char>, from: int, start: int)
    requires
        0 <= start <= from <= t.len(),
    ensures
        split_from(t, d, from, start).len() > 0,
        join(split_from(t, d, from, start), d) == t.subrange(start, t.len() as int),
    decreases t.len() - from,
{
    if from + d.len() > t.len() || d.len() == 0 {
    } else if occurs_at(t, d, from) {
        let next = from + d.len();
        let rest = split_from(t, d, next, next);
        lemma_join_split_from(t, d, next, next);
        lemma_join_concat(seq![t.subrange(start, from)], rest, d);
        assert(t.subrange(start, from) + d + t.subrange(next, t.len() as int) =~= t.subrange(
            start,
            t.len() as int,
        ));
    } else {
        lemma_join_split_from(t, d, from + 1, start);
    }
}

/// The parts that the empty delimiter leaves of the first `n` characters of `t`.
spec fn single_chars(t: Seq<char>, n: nat) -> Seq<Seq<char>> {
    Seq::new(n, |i: int| seq![t[i]])
}

proof fn lemma_join_single_chars(t: Seq<char>, n: nat)
    requires
        n <= t.len(),
    ensures
        join(single_chars(t, n), seq![]) == t.take(n as int),
    decreases n,
{
    if n > 1 {
        lemma_join_single_chars(t, (n - 1) as nat);
        assert(single_chars(t, n).drop_last() =~= single_chars(t, (n - 1) as nat));
    }
    assert(join(single_chars(t, n), seq![]) =~= t.take(n as int));
}

/// Joining the parts of a string at the delimiter that it was split at gives the string back.
pub proof fn law_join_undoes_split(t: Seq<char>, d: Seq<char>)
    ensures
        split_parts(t, d).len() > 0,
        join(split_parts(t, d), d) == t,
{
    if d.len() == 0 {
        let (none, chars) = (Seq::<char>::empty(), single_chars(t, t.len()));
        lemma_join_single_chars(t, t.len());
        assert(d =~= none);
        assert(split_parts(t, d) =~= seq![none] + chars + seq![none]);
        if t.len() > 0 {
            lemma_join_concat(seq![none], chars, d);
            lemma_join_concat(seq![none] + chars, seq![none], d);
        } else {
            lemma_join_concat(seq![none], seq![none], d);
            assert(seq![none] + chars =~= seq![none]);
        }
        assert(join(split_parts(t, d), d) =~= t);
    } else {
        lemma_join_split_from(t, d, 0, 0);
        assert(t.subrange(0, t.len() as int) =~= t);
    }
}

/// Whether `t[start..from]` is known to hold no delimiter.
spec fn scanned(t: Seq<char>, d: Seq<char>, from: int, start: int) -> bool {
    &&& d.len() > 0
    &&& 0 <= start <= from <= t.len()
    &&& forall|p: int| start <= p < from ==> !#[trigger] occurs_at(t, d, p)
}

/// A piece of `t` in which no delimiter begins holds none.
proof fn lemma_piece_holds_no_delimiter(t: Seq<char>, d: Seq<char>, start: int, end: int)
    requires
        0 <= start <= end <= t.len(),
        forall|p: int| start <= p && p + d.len() <= end ==> !#[trigger] occurs_at(t, d, p),
    ensures
        forall|i: int| !#[trigger] occurs_at(t.subrange(start, end), d, i),
{
    let piece = t.subrange(start, end);
    assert forall|i: int| !#[trigger] occurs_at(piece, d, i) by {
        if occurs_at(piece, d, i) {
            assert(piece.subrange(i, i + d.len()) =~= t.subrange(start + i, start + i + d.len()));
            assert(occurs_at(t, d, start + i));
        }
    }
}

proof fn lemma_split_from_holds_no_delimiter(t: Seq<char>, d: Seq<char>, from: int, start: int)
    requires
        scanned(t, d, from, start),
    ensures
        forall|n: int, i: int|
            0 <= n < split_from(t, d, from, start).len() ==> !#[trigger] occurs_at(
                split_from(t, d, from, start)[n],
                d,
                i,
            ),
    decreases t.len() - from,
{
    let parts = split_from(t, d, from, start);
    if from + d.len() > t.len() {
        lemma_piece_holds_no_delimiter(t, d, start, t.len() as int);
        assert(parts =~= seq![t.subrange(start, t.len() as int)]);
        assert forall|n: int, i: int| 0 <= n < parts.len() implies !#[trigger] occurs_at(
            parts[n],
            d,
            i,
        ) by {
            assert(parts[n] == t.subrange(start, t.len() as int));
        }
    } else if occurs_at(t, d, from) {
        let next = from + d.len();
        let rest = split_from(t, d, next, next);
        lemma_piece_holds_no_delimiter(t, d, start, from);
        lemma_split_from_holds_no_delimiter(t, d, next, next);
        assert forall|n: int, i: int| 0 <= n < parts.len() implies !#[trigger] occurs_at(
            parts[n],
            d,
            i,
        ) by {
            if n > 0 {
                assert(parts[n] == rest[n - 1]);
            }
        }
    } else {
        lemma_split_from_holds_no_delimiter(t, d, from + 1, start);
        assert(parts == split_from(t, d, from + 1, start));
    }
}

/// No part holds the delimiter that the string was split at.
pub proof fn law_parts_hold_no_delimiter(t: Seq<char>, d: Seq<char>, n: int, i: int)
    requires
        0 <= n < split_parts(t, d).len(),
    ensures
        !occurs_at(split_parts(t, d)[n], d, i),
{
    if d.len() > 0 {
        lemma_split_from_holds_no_delimiter(t, d, 0, 0);
    }
}

/// Joining, told by how one more part changes it.
pub proof fn law_join_adds_part_by_part(parts: Seq<Seq<char>>, part: Seq<char>, sep: Seq<char>)
    ensures
        join(Seq::<Seq<char>>::empty(), sep) == Seq::<char>::empty(),
        join(seq![part], sep) == part,
        parts.len() > 0 ==> join(parts.push(part), sep) == join(parts, sep) + sep + part,
{
    assert(parts.push(part).drop_last() =~= parts);
}

/// Behind every part but the last the delimiter begins where the part ends, and nowhere before.
proof fn lemma_split_from_first(
    t: Seq<char>,
    d: Seq<char>,
    from: int,
    start: int,
    n: int,
    i: int,
)
    requires
        scanned(t, d, from, start),
        0 <= n < split_from(t, d, from, start).len() - 1,
        0 <= i < split_from(t, d, from, start)[n].len(),
    ensures
        !occurs_at(split_from(t, d, from, start)[n] + d, d, i),
    decreases t.len() - from,
{
    let parts = split_from(t, d, from, start);
    if from + d.len() > t.len() {
    } else if occurs_at(t, d, from) {
        let next = from + d.len();
        let rest = split_from(t, d, next, next);
        if n > 0 {
            assert(parts[n] == rest[n - 1]);
            lemma_split_from_first(t, d, next, next, n - 1, i);
        } else {
            let piece = parts[0] + d;
            assert(parts[0] == t.subrange(start, from));
            assert(piece =~= t.subrange(start, next));
            if occurs_at(piece, d, i) {
                assert(piece.subrange(i, i + d.len()) =~= t.subrange(
                    start + i,
                    start + i + d.len(),
                ));
                assert(occurs_at(t, d, start + i));
            }
        }
    } else {
        lemma_split_from_first(t, d, from + 1, start, n, i);
    }
}

/// What [`split_parts`] leaves of a string at a non-empty delimiter.
pub proof fn lemma_whole_splits(t: Seq<char>, d: Seq<char>, n: int, i: int)
    requires
        d.len() > 0,
    ensures
        split_parts(t, d).len() == cuts(t, d).len() + 1,
        0 <= n < split_parts(t, d).len() ==> !occurs_at(split_parts(t, d)[n], d, i),
        0 <= n < split_parts(t, d).len() - 1 && 0 <= i < split_parts(t, d)[n].len() ==> !occurs_at(
            split_parts(t, d)[n] + d,
            d,
            i,
        ),
{
    lemma_split_from_cuts(t, d, 0, 0);
    if 0 <= n < split_parts(t, d).len() {
        law_parts_hold_no_delimiter(t, d, n, i);
    }
    if 0 <= n < split_parts(t, d).len() - 1 && 0 <= i < split_parts(t, d)[n].len() {
        lemma_split_from_first(t, d, 0, 0, n, i);
    }
}

/// The positions in `t[from..]` at which the non-empty delimiter `d` is cut out: its occurrences
/// from left to right, without overlap.
pub open spec fn cuts_from(t: Seq<char>, d: Seq<char>, from: int) -> Seq<int>
    decreases t.len() - from,
{
    if from + d.len() > t.len() || d.len() == 0 {
        seq![]
    } else if occurs_at(t, d, from) {
        seq![from] + cuts_from(t, d, from + d.len())
    } else {
        cuts_from(t, d, from + 1)
    }
}

/// The positions in `t` at which `d` is cut out.
pub open spec fn cuts(t: Seq<char>, d: Seq<char>) -> Seq<int> {
    cuts_from(t, d, 0)
}

/// Where the `n`-th part of `t` starts: at the start of `t`, or behind the cut before it.
pub open spec fn part_start(t: Seq<char>, d: Seq<char>, n: int) -> int {
    if n == 0 {
        0
    } else {
        cuts(t, d)[n - 1] + d.len()
    }
}

/// Where the `n`-th part of `t` ends: at the cut behind it, or at the end of `t`.
pub open spec fn part_end(t: Seq<char>, d: Seq<char>, n: int) -> int {
    if n < cuts(t, d).len() {
        cuts(t, d)[n]
    } else {
        t.len() as int
    }
}

proof fn lemma_cuts_from(t: Seq<char>, d: Seq<char>, from: int)
    requires
        d.len() > 0,
        0 <= from <= t.len(),
    ensures
        forall|n: int|
            0 <= n < cuts_from(t, d, from).len() ==> from <= #[trigger] cuts_from(t, d, from)[n]
                && occurs_at(t, d, cuts_from(t, d, from)[n]),
        forall|n: int, m: int|
            0 <= n < m < cuts_from(t, d, from).len() ==> #[trigger] cuts_from(t, d, from)[n]
                + d.len() <= #[trigger] cuts_from(t, d, from)[m],
    decreases t.len() - from,
{
    let cs = cuts_from(t, d, from);
    if from + d.len() > t.len() {
    } else if occurs_at(t, d, from) {
        let rest = cuts_from(t, d, from + d.len());
        lemma_cuts_from(t, d, from + d.len());
        assert forall|n: int| 0 <= n < cs.len() implies from <= #[trigger] cs[n] && occurs_at(
            t,
            d,
            cs[n],
        ) by {
            if n > 0 {
                assert(cs[n] == rest[n - 1]);
            }
        }
        assert forall|n: int, m: int| 0 <= n < m < cs.len() implies #[trigger] cs[n] + d.len()
            <= #[trigger] cs[m] by {
            assert(cs[m] == rest[m - 1]);
            if n > 0 {
                assert(cs[n] == rest[n - 1]);
            }
        }
    } else {
        lemma_cuts_from(t, d, from + 1);
        assert(cs == cuts_from(t, d, from + 1));
    }
}

proof fn lemma_split_from_cuts(t: Seq<char>, d: Seq<char>, from: int, start: int)
    requires
        d.len() > 0,
        0 <= start <= from <= t.len(),
    ensures
        ({
            let parts = split_from(t, d, from, start);
            let cs = cuts_from(t, d, from);
            &&& parts.len() == cs.len() + 1
            &&& forall|n: int|
                0 <= n < parts.len() ==> #[trigger] parts[n] == t.subrange(
                    if n == 0 {
                        start
                    } else {
                        cs[n - 1] + d.len()
                    },
                    if n < cs.len() {
                        cs[n]
                    } else {
                        t.len() as int
                    },
                )
        }),
    decreases t.len() - from,
{
    let parts = split_from(t, d, from, start);
    let cs = cuts_from(t, d, from);
    if from + d.len() > t.len() {
    } else if occurs_at(t, d, from) {
        let next = from + d.len();
        let rest = split_from(t, d, next, next);
        let rest_cuts = cuts_from(t, d, next);
        lemma_split_from_cuts(t, d, next, next);
        assert forall|n: int| 0 <= n < parts.len() implies #[trigger] parts[n] == t.subrange(
            if n == 0 {
                start
            } else {
                cs[n - 1] + d.len()
            },
            if n < cs.len() {
                cs[n]
            } else {
                t.len() as int
            },
        ) by {
            if n > 0 {
                assert(parts[n] == rest[n - 1]);
                assert(n < cs.len() ==> cs[n] == rest_cuts[n - 1]);
                assert(n > 1 ==> cs[n - 1] == rest_cuts[n - 2]);
            }
        }
    } else {
        lemma_split_from_cuts(t, d, from + 1, start);
    }
}

/// A string is cut at occurrences of the delimiter that do not overlap.
pub proof fn law_cuts_are_occurrences(t: Seq<char>, d: Seq<char>, n: int)
    requires
        d.len() > 0,
        0 <= n < cuts(t, d).len(),
    ensures
        occurs_at(t, d, cuts(t, d)[n]),
        n + 1 < cuts(t, d).len() ==> cuts(t, d)[n] + d.len() <= cuts(t, d)[n + 1],
{
    lemma_cuts_from(t, d, 0);
}

/// The parts of a string are what lies between the cuts, before the first and behind the last.
pub proof fn law_parts_lie_between_cuts(t: Seq<char>, d: Seq<char>, n: int)
    requires
        d.len() > 0,
        0 <= n < split_parts(t, d).len(),
    ensures
        split_parts(t, d).len() == cuts(t, d).len() + 1,
        0 <= part_start(t, d, n) <= part_end(t, d, n) <= t.len(),
        split_parts(t, d)[n] == t.subrange(part_start(t, d, n), part_end(t, d, n)),
{
    lemma_split_from_cuts(t, d, 0, 0);
    lemma_cuts_from(t, d, 0);
    let cs = cuts_from(t, d, 0);
    if 0 < n < cs.len() {
        assert(cs[n - 1] + d.len() <= cs[n]);
    }
}

/// Empty parts mark delimiters: an empty part at the start one with which the string begins, at
/// the end one with which it ends, elsewhere two that are cut out side by side; and each of these
/// leaves an empty part.
pub proof fn law_empty_parts_mark_delimiters(t: Seq<char>, d: Seq<char>, n: int)
    requires
        t.len() > 0,
        d.len() > 0,
        0 <= n < split_parts(t, d).len(),
    ensures
        split_parts(t, d).len() == cuts(t, d).len() + 1,
        n == 0 ==> (split_parts(t, d)[n].len() == 0 <==> occurs_at(t, d, 0)),
        n == cuts(t, d).len() ==> (split_parts(t, d)[n].len() == 0 <==> n > 0 && cuts(t, d)[n - 1]
            + d.len() == t.len()),
        0 < n < cuts(t, d).len() ==> (split_parts(t, d)[n].len() == 0 <==> cuts(t, d)[n - 1]
            + d.len() == cuts(t, d)[n]),
{
    law_parts_lie_between_cuts(t, d, n);
    lemma_cuts_from(t, d, 0);
    if n == 0 && occurs_at(t, d, 0) {
        assert(cuts(t, d)[0] == 0);
    }
    if n == 0 && cuts(t, d).len() > 0 {
        assert(occurs_at(t, d, cuts(t, d)[0]));
    }
}

/// The delimiter is cut out at places where it stands, from left to right without overlap; and
/// wherever else it stands, it begins inside one of those.
pub proof fn law_cuts_are_the_leftmost_occurrences(t: Seq<char>, d: Seq<char>, n: int, p: int)
    requires
        d.len() > 0,
    ensures
        0 <= n < cuts(t, d).len() ==> {
            &&& 0 <= cuts(t, d)[n]
            &&& cuts(t, d)[n] + d.len() <= t.len()
            &&& t.subrange(cuts(t, d)[n], cuts(t, d)[n] + d.len()) == d
        },
        0 <= n < cuts(t, d).len() - 1 ==> cuts(t, d)[n] + d.len() <= cuts(t, d)[n + 1],
        0 <= p && p + d.len() <= t.len() && t.subrange(p, p + d.len()) == d ==> exists|m: int|
            0 <= m < cuts(t, d).len() && #[trigger] cuts(t, d)[m] <= p < cuts(t, d)[m] + d.len(),
{
    lemma_cuts_from(t, d, 0);
    if 0 <= n < cuts(t, d).len() {
        assert(occurs_at(t, d, cuts(t, d)[n]));
    }
    if 0 <= p && p + d.len() <= t.len() && t.subrange(p, p + d.len()) == d {
        lemma_cuts_cover(t, d, 0, p);
        let cs = cuts_from(t, d, 0);
        let m = choose|m: int| 0 <= m < cs.len() && #[trigger] cs[m] <= p < cs[m] + d.len();
        assert(cuts(t, d)[m] == cs[m]);
    }
}

proof fn lemma_cuts_cover(t: Seq<char>, d: Seq<char>, from: int, p: int)
    requires
        d.len() > 0,
        0 <= from <= p,
        occurs_at(t, d, p),
    ensures
        exists|m: int|
            0 <= m < cuts_from(t, d, from).len() && #[trigger] cuts_from(t, d, from)[m] <= p
                < cuts_from(t, d, from)[m] + d.len(),
    decreases t.len() - from,
{
    let cs = cuts_from(t, d, from);
    if occurs_at(t, d, from) {
        assert(cs[0] == from);
        if p >= from + d.len() {
            let rest = cuts_from(t, d, from + d.len());
            lemma_cuts_cover(t, d, from + d.len(), p);
            let m = choose|m: int|
                0 <= m < rest.len() && #[trigger] rest[m] <= p < rest[m] + d.len();
            assert(cs[m + 1] == rest[m]);
        }
    } else {
        lemma_cuts_cover(t, d, from + 1, p);
        assert(cs == cuts_from(t, d, from + 1));
    }
}

/// The texts of lists of strings are those of the strings.
pub proof fn law_list_views(strings: Seq<String>, shared: Seq<Arc<String>>, n: int)
    ensures
        string_views(strings).len() == strings.len(),
        0 <= n < strings.len() ==> string_views(strings)[n] == strings[n]@,
        shared_views(shared).len() == shared.len(),
        0 <= n < shared.len() ==> shared_views(shared)[n] == shared[n]@,
{
}

} // verus!
