//! The content index: a map from string hashes to positions.
use dashmap::DashMap;
use vstd::prelude::*;
use xxhash_rust::xxh3::Xxh3DefaultBuilder;

verus! {

/// `dashmap::DashMap`, opaque to the verifier.
#[verifier::external_type_specification]
#[verifier::external_body]
#[verifier::reject_recursive_types(K)]
#[verifier::reject_recursive_types(V)]
#[verifier::reject_recursive_types(S)]
pub struct ExDashMap<K, V, S>(DashMap<K, V, S>);

/// `xxhash_rust::xxh3::Xxh3DefaultBuilder`, opaque to the verifier.
#[verifier::external_type_specification]
#[verifier::external_body]
pub struct ExXxh3DefaultBuilder(Xxh3DefaultBuilder);

/// The 64-bit XXH3 hash of a byte string.
pub uninterp spec fn xxh3_of(bytes: Seq<u8>) -> u64;

/// The map behind a store: hashes of strings to their positions.
pub type ContentIndex = DashMap<u64, u32, Xxh3DefaultBuilder>;

/// What a content index holds: each hash with the position filed under it. A `DashMap` can be
/// changed through a shared reference too; in this crate none is, so that what it holds is a
/// function of its value.
pub uninterp spec fn entries_of(index: ContentIndex) -> Map<u64, u32>;

/// `xxhash_rust::xxh3::xxh3_64`: the hash depends on the bytes alone.
#[verifier::external_body]
pub(crate) fn hash_bytes(bytes: &[u8]) -> (hash: u64)
    ensures
        hash == xxh3_of(bytes@),
{
    xxhash_rust::xxh3::xxh3_64(bytes)
}

/// `DashMap::with_capacity_and_hasher`: an empty map. How much room was allocated is left
/// unsaid.
#[verifier::external_body]
pub(crate) fn index_with_capacity(capacity: usize) -> (index: ContentIndex)
    requires
        capacity <= usize::MAX / 128,
    ensures
        entries_of(index).dom() == Set::<u64>::empty(),
{
    DashMap::with_capacity_and_hasher(capacity, Xxh3DefaultBuilder::new())
}

/// `DashMap::get`: a copy of the value under `key`, if there is one.
#[verifier::external_body]
pub(crate) fn index_get(index: &ContentIndex, key: u64) -> (found: Option<u32>)
    ensures
        found == (if entries_of(*index).contains_key(key) {
            Some(entries_of(*index)[key])
        } else {
            None
        }),
{
    index.get(&key).map(|entry| *entry.value())
}

/// `DashMap::entry` with `Entry::or_insert`: files `value` under `key` where nothing is
/// filed yet, and returns what is then filed there.
#[verifier::external_body]
pub(crate) fn index_get_or_insert(
    index: &mut ContentIndex,
    key: u64,
    value: u32,
) -> (filed: u32)
    ensures
        entries_of(*old(index)).contains_key(key) ==> {
            &&& filed == entries_of(*old(index))[key]
            &&& entries_of(*final(index)) == entries_of(*old(index))
        },
        !entries_of(*old(index)).contains_key(key) ==> {
            &&& filed == value
            &&& entries_of(*final(index)) == entries_of(*old(index)).insert(key, value)
        },
{
    *index.entry(key).or_insert(value)
}

/// `DashMap::len`: the number of entries.
#[verifier::external_body]
pub(crate) fn index_len(index: &ContentIndex) -> (count: usize)
    ensures
        count == entries_of(*index).len(),
{
    index.len()
}

/// `DashMap::capacity`: the number of entries that fit without another allocation, those held
/// included. How many more fit is up to the allocations made so far and left unsaid.
#[verifier::external_body]
pub(crate) fn index_capacity(index: &ContentIndex) -> (capacity: usize)
    ensures
        capacity >= entries_of(*index).len(),
{
    index.capacity()
}

/// The size in bytes of an entry of the content index: its key, its value and a lock.
pub const ENTRY_SIZE: usize = 20;

/// The memory footprint in bytes of a content index with the given number of entries and
/// capacity: what the entries take, and what is allocated beyond that. `None` where nothing is
/// allocated.
pub fn footprint(entries: usize, capacity: usize) -> (size: Option<(usize, usize)>)
    requires
        entries <= capacity,
        capacity * ENTRY_SIZE <= usize::MAX,
    ensures
        match size {
            Some((used, excess)) => {
                &&& capacity > 0
                &&& used == entries * ENTRY_SIZE
                &&& excess == (capacity - entries) * ENTRY_SIZE
            },
            None => capacity == 0,
        },
{
    if capacity == 0 {
        return None;
    }
    let used: usize = ENTRY_SIZE * entries;
    let total: usize = ENTRY_SIZE * capacity;
    Some((used, total - used))
}

/// Whether `listing` holds each entry once, in any order.
pub open spec fn is_listing(listing: Seq<(u64, u32)>, entries: Map<u64, u32>) -> bool {
    &&& forall|n: int|
        0 <= n < listing.len() ==> entries.contains_key((#[trigger] listing[n]).0)
            && entries[listing[n].0] == listing[n].1
    &&& forall|n: int, m: int|
        0 <= n < m < listing.len() ==> (#[trigger] listing[n]).0 != (#[trigger] listing[m]).0
    &&& forall|key: u64| #[trigger]
        entries.contains_key(key) ==> exists|n: int|
            0 <= n < listing.len() && (#[trigger] listing[n]).0 == key
}

/// `DashMap::iter`: each entry once. In which order they come is left unsaid: it follows from
/// the layout of the map.
#[verifier::external_body]
pub(crate) fn index_entries(index: &ContentIndex) -> (listing: Vec<(u64, u32)>)
    ensures
        is_listing(listing@, entries_of(*index)),
{
    index.iter().map(|entry| (*entry.key(), *entry.value())).collect()
}

/// A listing holds a key with a value exactly if the map does, and no key twice.
pub proof fn law_listings(listing: Seq<(u64, u32)>, entries: Map<u64, u32>)
    ensures
        is_listing(listing, entries) <==> {
            &&& forall|key: u64, value: u32|
                listing.contains((key, value)) <==> #[trigger] entries.contains_pair(key, value)
            &&& forall|n: int, m: int|
                0 <= n < m < listing.len() ==> (#[trigger] listing[n]).0 != (
                #[trigger] listing[m]).0
        },
{
    if is_listing(listing, entries) {
        assert forall|key: u64, value: u32|
            listing.contains((key, value)) <==> #[trigger] entries.contains_pair(key, value) by {
            if listing.contains((key, value)) {
                let n = choose|n: int| 0 <= n < listing.len() && listing[n] == (key, value);
                assert(entries.contains_key(listing[n].0));
            }
            if entries.contains_pair(key, value) {
                assert(entries.contains_key(key));
                let n = choose|n: int| 0 <= n < listing.len() && (#[trigger] listing[n]).0 == key;
                assert(listing[n] == (key, value));
            }
        }
    }
    if {
        &&& forall|key: u64, value: u32|
            listing.contains((key, value)) <==> #[trigger] entries.contains_pair(key, value)
        &&& forall|n: int, m: int|
            0 <= n < m < listing.len() ==> (#[trigger] listing[n]).0 != (#[trigger] listing[m]).0
    } {
        assert forall|n: int| 0 <= n < listing.len() implies entries.contains_key(
            (#[trigger] listing[n]).0,
        ) && entries[listing[n].0] == listing[n].1 by {
            assert(listing.contains((listing[n].0, listing[n].1)));
            assert(entries.contains_pair(listing[n].0, listing[n].1));
        }
        assert forall|key: u64| #[trigger] entries.contains_key(key) implies exists|n: int|
            0 <= n < listing.len() && (#[trigger] listing[n]).0 == key by {
            assert(entries.contains_pair(key, entries[key]));
            let n = choose|n: int| 0 <= n < listing.len() && listing[n] == (key, entries[key]);
            assert(listing[n].0 == key);
        }
    }
}

/// An entry takes a key of 8 bytes, a value of 4 and a lock of 8.
pub proof fn law_entry_size()
    ensures
        ENTRY_SIZE == 8 + 4 + 8,
{
}

} // verus!
