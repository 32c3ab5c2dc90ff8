//! Checking that the parts of a store agree with each other.
use crate::contents::{text_hash, LATIN1_NUM};
use crate::digits::{decimal, hexadecimal, push_decimal, push_hexadecimal};
use crate::index::{
    entries_of, hash_bytes, index_entries, index_get, index_len, is_listing, xxh3_of, ContentIndex,
};
use crate::split::{shared_views, string_views};
use std::sync::Arc;
use vstd::prelude::*;
use vstd::utf8::encode_utf8;

verus! {

/// Whether strings, index and counter agree: the counter counts the strings and the reserved
/// indices, and the index files each string under its hash at its position, and nothing else.
pub open spec fn agree(strings: Seq<Seq<char>>, entries: Map<u64, u32>, len: int) -> bool {
    &&& strings.len() + LATIN1_NUM == len
    &&& strings.len() == entries.len()
    &&& forall|sid: int|
        0 <= sid < strings.len() ==> entries.contains_key(text_hash(#[trigger] strings[sid]))
            && entries[text_hash(strings[sid])] == sid
    &&& forall|key: u64| #[trigger]
        entries.contains_key(key) ==> entries[key] < strings.len() && text_hash(
            strings[entries[key] as int],
        ) == key
}

/// What is reported where the counter or the size of the index is not the number of strings.
pub open spec fn length_errors(strings: int, entries: int, len: int) -> Seq<Seq<char>> {
    (if strings + LATIN1_NUM != len {
        seq![
            "store.len() ("@ + decimal(strings) + ") != stored length ("@ + decimal(len) + ")"@,
        ]
    } else {
        seq![]
    }) + (if strings != entries {
        seq![
            "store.len() ("@ + decimal(strings) + ") != index.len() ("@ + decimal(entries) + ")"@,
        ]
    } else {
        seq![]
    })
}

/// What is reported of the string at `sid`: that its hash is not filed, or under another
/// position. (Of a position past the end no string is shown.)
pub open spec fn string_error(strings: Seq<Seq<char>>, entries: Map<u64, u32>, sid: int) -> Seq<
    Seq<char>,
> {
    let s = strings[sid];
    let key = text_hash(s);
    if !entries.contains_key(key) {
        seq![
            "missing hash: 0x"@ + hexadecimal(key as int) + " (str_id: "@ + decimal(sid)
                + ", str: '"@ + s + "')"@,
        ]
    } else if entries[key] != sid {
        let other = if entries[key] < strings.len() {
            strings[entries[key] as int]
        } else {
            seq![]
        };
        seq![
            "index mismatch for str_id "@ + decimal(sid) + " ('"@ + s + "'): hash 0x"@
                + hexadecimal(key as int) + " -> "@ + decimal(entries[key] as int) + " ('"@ + other
                + "')"@,
        ]
    } else {
        seq![]
    }
}

/// What is reported of the first `n` strings.
pub open spec fn string_errors(strings: Seq<Seq<char>>, entries: Map<u64, u32>, n: int) -> Seq<
    Seq<char>,
>
    decreases n,
{
    if n <= 0 {
        seq![]
    } else {
        string_errors(strings, entries, n - 1) + string_error(strings, entries, n - 1)
    }
}

/// What is reported of an entry of the index: that its position is past the end, or that the
/// string there has another hash.
pub open spec fn entry_error(strings: Seq<Seq<char>>, entry: (u64, u32)) -> Seq<Seq<char>> {
    let (key, sid) = entry;
    if sid >= strings.len() {
        seq![
            "index out of bounds: "@ + decimal(sid as int) + " >= "@ + decimal(
                strings.len() as int,
            ) + " (hash: 0x"@ + hexadecimal(key as int) + ")"@,
        ]
    } else if text_hash(strings[sid as int]) != key {
        seq![
            "hash mismatch for '"@ + strings[sid as int] + "' (stored: 0x"@ + hexadecimal(
                key as int,
            ) + ", calculated: 0x"@ + hexadecimal(text_hash(strings[sid as int]) as int) + ")"@,
        ]
    } else {
        seq![]
    }
}

/// What is reported of a list of entries.
pub open spec fn entry_errors(strings: Seq<Seq<char>>, listing: Seq<(u64, u32)>) -> Seq<Seq<char>>
    decreases listing.len(),
{
    if listing.len() == 0 {
        seq![]
    } else {
        entry_errors(strings, listing.drop_last()) + entry_error(strings, listing.last())
    }
}

/// All that is reported, where the entries of the index come in the order of `listing`.
pub open spec fn all_errors(
    strings: Seq<Seq<char>>,
    entries: Map<u64, u32>,
    len: int,
    listing: Seq<(u64, u32)>,
) -> Seq<Seq<char>> {
    length_errors(strings.len() as int, entries.len() as int, len) + string_errors(
        strings,
        entries,
        strings.len() as int,
    ) + entry_errors(strings, listing)
}

/// The message that the number of strings differs from another number.
fn length_message(between: &str, count: usize, other: usize) -> (text: String)
    ensures
        text@ == "store.len() ("@ + decimal(count as int) + between@ + decimal(other as int)
            + ")"@,
{
    let mut text = String::new();
    text.append("store.len() (");
    push_decimal(&mut text, count as u64);
    text.append(between);
    push_decimal(&mut text, other as u64);
    text.append(")");
    assert(text@ =~= "store.len() ("@ + decimal(count as int) + between@ + decimal(other as int)
        + ")"@);
    text
}

/// Reports on the string at `sid`.
fn check_string(strings: &Vec<Arc<String>>, index: &ContentIndex, sid: usize) -> (error: Option<
    String,
>)
    requires
        sid < strings@.len(),
    ensures
        string_error(shared_views(strings@), entries_of(*index), sid as int) == (match error {
            Some(text) => seq![text@],
            None => seq![],
        }),
{
    let s = strings[sid].as_str();
    let key: u64 = hash_bytes(s.as_bytes());
    match index_get(index, key) {
        None => {
            let mut text = String::new();
            text.append("missing hash: 0x");
            push_hexadecimal(&mut text, key);
            text.append(" (str_id: ");
            push_decimal(&mut text, sid as u64);
            text.append(", str: '");
            text.append(s);
            text.append("')");
            assert(text@ =~= "missing hash: 0x"@ + hexadecimal(key as int) + " (str_id: "@
                + decimal(sid as int) + ", str: '"@ + s@ + "')"@);
            Some(text)
        },
        Some(found) => {
            if found as u64 == sid as u64 {
                return None;
            }
            let other: &str = if (found as u64) < (strings.len() as u64) {
                strings[found as usize].as_str()
            } else {
                ""
            };
            let mut text = String::new();
            text.append("index mismatch for str_id ");
            push_decimal(&mut text, sid as u64);
            text.append(" ('");
            text.append(s);
            text.append("'): hash 0x");
            push_hexadecimal(&mut text, key);
            text.append(" -> ");
            push_decimal(&mut text, found as u64);
            text.append(" ('");
            text.append(other);
            text.append("')");
            proof {
                reveal_strlit("");
                assert(found >= strings@.len() ==> other@ =~= seq![]);
            }
            assert(text@ =~= "index mismatch for str_id "@ + decimal(sid as int) + " ('"@ + s@
                + "'): hash 0x"@ + hexadecimal(key as int) + " -> "@ + decimal(found as int)
                + " ('"@ + other@ + "')"@);
            Some(text)
        },
    }
}

/// Reports on an entry of the index.
fn check_entry(strings: &Vec<Arc<String>>, key: u64, sid: u32) -> (error: Option<String>)
    ensures
        entry_error(shared_views(strings@), (key, sid)) == (match error {
            Some(text) => seq![text@],
            None => seq![],
        }),
{
    let count: u64 = strings.len() as u64;
    if sid as u64 >= count {
        let mut text = String::new();
        text.append("index out of bounds: ");
        push_decimal(&mut text, sid as u64);
        text.append(" >= ");
        push_decimal(&mut text, count);
        text.append(" (hash: 0x");
        push_hexadecimal(&mut text, key);
        text.append(")");
        assert(text@ =~= "index out of bounds: "@ + decimal(sid as int) + " >= "@ + decimal(
            count as int,
        ) + " (hash: 0x"@ + hexadecimal(key as int) + ")"@);
        return Some(text);
    }
    let s = strings[sid as usize].as_str();
    let csum: u64 = hash_bytes(s.as_bytes());
    if csum == key {
        return None;
    }
    let mut text = String::new();
    text.append("hash mismatch for '");
    text.append(s);
    text.append("' (stored: 0x");
    push_hexadecimal(&mut text, key);
    text.append(", calculated: 0x");
    push_hexadecimal(&mut text, csum);
    text.append(")");
    assert(text@ =~= "hash mismatch for '"@ + s@ + "' (stored: 0x"@ + hexadecimal(key as int)
        + ", calculated: 0x"@ + hexadecimal(csum as int) + ")"@);
    Some(text)
}

/// Reports on the entries of the index, in the given order.
pub fn check_entries(strings: &Vec<Arc<String>>, listing: &Vec<(u64, u32)>) -> (errors: Vec<String>)
    ensures
        string_views(errors@) == entry_errors(shared_views(strings@), listing@),
{
    let ghost ss = shared_views(strings@);
    let mut errors: Vec<String> = Vec::new();
    let mut n: usize = 0;
    assert(string_views(errors@) =~= seq![]);
    while n < listing.len()
        invariant
            n <= listing@.len(),
            ss == shared_views(strings@),
            string_views(errors@) == entry_errors(ss, listing@.take(n as int)),
        decreases listing@.len() - n,
    {
        let ghost before = string_views(errors@);
        let (key, sid) = listing[n];
        assert(listing@.take(n + 1).drop_last() =~= listing@.take(n as int));
        if let Some(error) = check_entry(strings, key, sid) {
            errors.push(error);
        }
        n += 1;
        assert(string_views(errors@) =~= before + entry_error(ss, (key, sid)));
    }
    assert(listing@.take(n as int) =~= listing@);
    errors
}

/// Reports everything on which strings, index and counter do not agree.
pub fn find_errors(strings: &Vec<Arc<String>>, index: &ContentIndex, len: usize) -> (errors: Vec<
    String,
>)
    ensures
        exists|listing: Seq<(u64, u32)>| #[trigger]
            is_listing(listing, entries_of(*index)) && string_views(errors@) == all_errors(
                shared_views(strings@),
                entries_of(*index),
                len as int,
                listing,
            ),
{
    let ghost ss = shared_views(strings@);
    let ghost entries = entries_of(*index);
    let mut errors: Vec<String> = Vec::new();
    let l_store: usize = strings.len();
    let l_index: usize = index_len(index);
    assert(string_views(errors@) =~= seq![]);
    if l_store as u128 + 256u128 != len as u128 {
        errors.push(length_message(") != stored length (", l_store, len));
    }
    if l_store != l_index {
        errors.push(length_message(") != index.len() (", l_store, l_index));
    }
    let ghost lengths = length_errors(ss.len() as int, entries.len() as int, len as int);
    assert(string_views(errors@) =~= lengths);
    let mut sid: usize = 0;
    while sid < strings.len()
        invariant
            sid <= strings@.len(),
            ss == shared_views(strings@),
            entries == entries_of(*index),
            string_views(errors@) == lengths + string_errors(ss, entries, sid as int),
        decreases strings@.len() - sid,
    {
        let ghost before = string_views(errors@);
        if let Some(error) = check_string(strings, index, sid) {
            errors.push(error);
        }
        sid += 1;
        assert(string_views(errors@) =~= before + string_error(ss, entries, sid - 1));
        assert(string_views(errors@) =~= lengths + string_errors(ss, entries, sid as int));
    }
    let listing = index_entries(index);
    let mut found = check_entries(strings, &listing);
    let ghost (before, more) = (errors@, found@);
    errors.append(&mut found);
    assert(string_views(errors@) =~= string_views(before) + string_views(more));
    assert(is_listing(listing@, entries));
    errors
}

proof fn lemma_string_errors(strings: Seq<Seq<char>>, entries: Map<u64, u32>, n: int)
    requires
        0 <= n <= strings.len(),
    ensures
        string_errors(strings, entries, n).len() == 0 <==> forall|sid: int|
            0 <= sid < n ==> entries.contains_key(text_hash(#[trigger] strings[sid]))
                && entries[text_hash(strings[sid])] == sid,
    decreases n,
{
    if n > 0 {
        lemma_string_errors(strings, entries, n - 1);
        let last = strings[n - 1];
        assert(string_error(strings, entries, n - 1).len() == 0 <==> entries.contains_key(
            text_hash(last),
        ) && entries[text_hash(last)] == n - 1);
    }
}

proof fn lemma_entry_errors(strings: Seq<Seq<char>>, listing: Seq<(u64, u32)>)
    ensures
        entry_errors(strings, listing).len() == 0 <==> forall|n: int|
            0 <= n < listing.len() ==> (#[trigger] listing[n]).1 < strings.len() && text_hash(
                strings[listing[n].1 as int],
            ) == listing[n].0,
    decreases listing.len(),
{
    if listing.len() > 0 {
        let short = listing.drop_last();
        lemma_entry_errors(strings, short);
        assert(forall|n: int| 0 <= n < short.len() ==> #[trigger] short[n] == listing[n]);
        let last = listing[listing.len() - 1];
        assert(entry_error(strings, last).len() == 0 <==> last.1 < strings.len() && text_hash(
            strings[last.1 as int],
        ) == last.0);
        if entry_errors(strings, listing).len() == 0 {
            assert forall|n: int| 0 <= n < listing.len() implies (#[trigger] listing[n]).1
                < strings.len() && text_hash(strings[listing[n].1 as int]) == listing[n].0 by {
                if n < short.len() {
                    assert(short[n] == listing[n]);
                }
            }
        }
    }
}

/// Nothing is reported exactly where strings, index and counter agree.
pub proof fn law_no_errors_iff_agreement(
    strings: Seq<Seq<char>>,
    entries: Map<u64, u32>,
    len: int,
    listing: Seq<(u64, u32)>,
)
    requires
        is_listing(listing, entries),
    ensures
        all_errors(strings, entries, len, listing).len() == 0 <==> agree(strings, entries, len),
{
    lemma_string_errors(strings, entries, strings.len() as int);
    lemma_entry_errors(strings, listing);
    if agree(strings, entries, len) {
        assert forall|n: int| 0 <= n < listing.len() implies (#[trigger] listing[n]).1
            < strings.len() && text_hash(strings[listing[n].1 as int]) == listing[n].0 by {
            assert(entries.contains_key(listing[n].0));
        }
    }
    if entry_errors(strings, listing).len() == 0 {
        assert forall|key: u64| #[trigger] entries.contains_key(key) implies entries[key]
            < strings.len() && text_hash(strings[entries[key] as int]) == key by {
            let n = choose|n: int| 0 <= n < listing.len() && (#[trigger] listing[n]).0 == key;
            assert(entries[listing[n].0] == listing[n].1);
        }
    }
}

/// What it means that strings, index and counter agree, told by the hashes: the counter is 256
/// more than the strings are, there are as many entries as strings, each string has its position
/// filed under its XXH3, and each entry is that of a string.
pub proof fn law_agreement(strings: Seq<Seq<char>>, entries: Map<u64, u32>, len: int)
    ensures
        agree(strings, entries, len) <==> {
            &&& len == strings.len() + 256
            &&& entries.len() == strings.len()
            &&& forall|sid: int|
                0 <= sid < strings.len() ==> entries.contains_key(
                    xxh3_of(encode_utf8(#[trigger] strings[sid])),
                ) && entries[xxh3_of(encode_utf8(strings[sid]))] == sid
            &&& forall|key: u64| #[trigger]
                entries.contains_key(key) ==> entries[key] < strings.len() && xxh3_of(
                    encode_utf8(strings[entries[key] as int]),
                ) == key
        },
{
}

/// The reports on lengths: one where the counter is not 256 more than the strings are, one where
/// there are not as many entries as strings.
pub proof fn law_length_reports(strings: int, entries: int, len: int)
    ensures
        strings + 256 == len && strings == entries ==> length_errors(strings, entries, len).len()
            == 0,
        strings + 256 != len && strings == entries ==> length_errors(strings, entries, len) == seq![
            "store.len() ("@ + decimal(strings) + ") != stored length ("@ + decimal(len) + ")"@,
        ],
        strings + 256 == len && strings != entries ==> length_errors(strings, entries, len) == seq![
            "store.len() ("@ + decimal(strings) + ") != index.len() ("@ + decimal(entries) + ")"@,
        ],
        strings + 256 != len && strings != entries ==> length_errors(strings, entries, len) == seq![
            "store.len() ("@ + decimal(strings) + ") != stored length ("@ + decimal(len) + ")"@,
            "store.len() ("@ + decimal(strings) + ") != index.len() ("@ + decimal(entries) + ")"@,
        ],
{
}

/// The report on a string: none where its position is filed under its XXH3.
pub proof fn law_string_reports(strings: Seq<Seq<char>>, entries: Map<u64, u32>, sid: int)
    requires
        0 <= sid < strings.len(),
    ensures
        ({
            let s = strings[sid];
            let key = xxh3_of(encode_utf8(s));
            let report = string_error(strings, entries, sid);
            &&& entries.contains_key(key) && entries[key] == sid ==> report.len() == 0
            &&& !entries.contains_key(key) ==> report == seq![
                "missing hash: 0x"@ + hexadecimal(key as int) + " (str_id: "@ + decimal(sid)
                    + ", str: '"@ + s + "')"@,
            ]
            &&& entries.contains_key(key) && entries[key] != sid && entries[key] < strings.len()
                ==> report == seq![
                "index mismatch for str_id "@ + decimal(sid) + " ('"@ + s + "'): hash 0x"@
                    + hexadecimal(key as int) + " -> "@ + decimal(entries[key] as int) + " ('"@
                    + strings[entries[key] as int] + "')"@,
            ]
            &&& entries.contains_key(key) && entries[key] >= strings.len() ==> report == seq![
                "index mismatch for str_id "@ + decimal(sid) + " ('"@ + s + "'): hash 0x"@
                    + hexadecimal(key as int) + " -> "@ + decimal(entries[key] as int) + " ('"@
                    + "')"@,
            ]
        }),
{
    let before = "index mismatch for str_id "@ + decimal(sid) + " ('"@ + strings[sid]
        + "'): hash 0x"@ + hexadecimal(text_hash(strings[sid]) as int) + " -> "@ + decimal(
        entries[text_hash(strings[sid])] as int,
    ) + " ('"@;
    assert(before + Seq::<char>::empty() =~= before);
}

/// The report on an entry: none where the string at its position has its key as XXH3.
pub proof fn law_entry_reports(strings: Seq<Seq<char>>, key: u64, sid: u32)
    ensures
        sid >= strings.len() ==> entry_error(strings, (key, sid)) == seq![
            "index out of bounds: "@ + decimal(sid as int) + " >= "@ + decimal(
                strings.len() as int,
            ) + " (hash: 0x"@ + hexadecimal(key as int) + ")"@,
        ],
        sid < strings.len() && xxh3_of(encode_utf8(strings[sid as int])) == key ==> entry_error(
            strings,
            (key, sid),
        ).len() == 0,
        sid < strings.len() && xxh3_of(encode_utf8(strings[sid as int])) != key ==> entry_error(
            strings,
            (key, sid),
        ) == seq![
            "hash mismatch for '"@ + strings[sid as int] + "' (stored: 0x"@ + hexadecimal(
                key as int,
            ) + ", calculated: 0x"@ + hexadecimal(
                xxh3_of(encode_utf8(strings[sid as int])) as int,
            ) + ")"@,
        ],
{
}

/// The reports come in order: those on lengths, on the strings one by one, on the entries one by
/// one.
pub proof fn law_reports_come_in_order(
    strings: Seq<Seq<char>>,
    entries: Map<u64, u32>,
    len: int,
    listing: Seq<(u64, u32)>,
    entry: (u64, u32),
    n: int,
)
    requires
        0 <= n < strings.len(),
    ensures
        string_errors(strings, entries, 0).len() == 0,
        string_errors(strings, entries, n + 1) == string_errors(strings, entries, n) + string_error(
            strings,
            entries,
            n,
        ),
        entry_errors(strings, seq![]).len() == 0,
        entry_errors(strings, listing.push(entry)) == entry_errors(strings, listing) + entry_error(
            strings,
            entry,
        ),
        all_errors(strings, entries, len, listing) == length_errors(
            strings.len() as int,
            entries.len() as int,
            len,
        ) + string_errors(strings, entries, strings.len() as int) + entry_errors(strings, listing),
{
    assert(listing.push(entry).drop_last() =~= listing);
}

} // verus!
