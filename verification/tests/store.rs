//! Storing strings and finding them again.
use std::cmp::Ordering;
use std::collections::HashSet;
use std::sync::Arc;
use stringstore::{
    return_iso8859_1_cp, Character, CompactStr, StoredStr, StoredStrPtr, StringStoreError,
    UniqueStrStore, LATIN1_NUM,
};

const HELLO: &str = "Hello, world!";

#[test]
fn lib_test_unique_store_basic() {
    let mut store: UniqueStrStore = UniqueStrStore::new_with_capacity(10);
    assert_eq!(store.len(), LATIN1_NUM as usize, "Store length should be {LATIN1_NUM}");

    let test = ["", " ", "a", "Z", "1", "2", "3", "/", ",", ")"];
    for s in test {
        assert!(store.contains(s), "store should contains('{s}')");
    }

    let i: u32 = store.insert(HELLO);
    let num: usize = LATIN1_NUM as usize + 1;

    assert_eq!(store.len(), num, "Store length should be {num}");
    assert!(store.contains(HELLO), "Store does not contain '{HELLO}': {store:?}");
    assert_eq!(store.get(i).unwrap(), HELLO, "get({i}) should == '{HELLO}'");
    assert_eq!(store.borrow_str(i), HELLO, "get_unchecked({i}) should == '{HELLO}'");

    // Test the pointer structs.
    let stored: StoredStr = store.get_ref(HELLO).expect("StoredStr should be returned");
    assert_eq!(stored.idx(), i, "StoredStr index should be {i}");
    let ptr: StoredStrPtr = stored.as_ptr();
    assert!(!ptr.as_str().as_ptr().is_null(), "StoredStrPtr should not be null: {ptr:?}");
    assert_eq!(ptr.as_str(), HELLO, "Pointer string should be '{HELLO}': {ptr:?}");
}

#[test]
fn stringstore_test_unique_store_basic() {
    let mut store: UniqueStrStore = UniqueStrStore::new_with_capacity(10);
    assert_eq!(store.len(), LATIN1_NUM as usize, "Store length should be {LATIN1_NUM}");

    let test = ["", " ", "a", "Z", "1", "2", "3", "/", ",", ")"];
    for s in test {
        assert!(store.contains(s), "store should contains('{s}')");
    }

    let i: u32 = store.insert(HELLO);
    let num: usize = LATIN1_NUM as usize + 1;

    assert_eq!(store.len(), num, "Store length should be {num}");
    assert!(store.contains(HELLO), "Store does not contain '{HELLO}': {store:?}");
    assert_eq!(store.get(i).unwrap(), HELLO, "get({i}) should == '{HELLO}'");
    assert_eq!(store.get_raw(i), HELLO, "get_unchecked({i}) should == '{HELLO}'");
}

#[test]
fn lib_test_unique_store_shared() {
    let foo_s: &'static str = "foo";
    let mut store: Arc<UniqueStrStore> = UniqueStrStore::new_with_capacity(10).shared();
    let stored: u32 = Arc::get_mut(&mut store).unwrap().insert_or_get(HELLO).idx();
    let start: u32 = LATIN1_NUM;

    assert_eq!(store.len(), start as usize + 1, "Store length should be {}", start + 1);
    assert!(store.contains(HELLO), "Store does not contain '{HELLO}': {store:?}");

    let again: u32 = Arc::get_mut(&mut store).unwrap().insert_or_get(HELLO).idx();
    let foo: u32 = Arc::get_mut(&mut store).unwrap().insert_or_get(foo_s).idx();
    assert_eq!(store.len(), start as usize + 2, "Store length should be {}", start + 2);

    assert_eq!(stored, start, "'{HELLO}' idx should be {start}: {stored:?}");
    assert_eq!(again, start, "Second '{HELLO}!' idx should be again {start}: {again:?}");
    assert_eq!(foo, start + 1, "'{foo_s}' idx should be {}: {foo:?}", start + 1);

    let stored: StoredStr = store.get_ref(HELLO).unwrap();
    let again: StoredStr = store.get_ref(HELLO).unwrap();
    let foo: StoredStr = store.get_ref(foo_s).unwrap();
    assert_eq!(stored.idx(), start, "'{HELLO}' idx should be {start}: {stored:?}");
    assert_eq!(again.idx(), start, "Second '{HELLO}!' idx should be again {start}: {again:?}");
    assert_eq!(foo.idx(), start + 1, "'{foo_s}' idx should be {}: {foo:?}", start + 1);

    assert_eq!(stored.as_ref(), HELLO, "as_ref() should == '{HELLO}': {stored:?}");
    assert_eq!(stored, again, "StoredStr instances should be equal: {stored:?} != {again:?}");
    assert_eq!(store.get(start).unwrap(), HELLO, "get({start}) should == '{HELLO}'");
    assert_eq!(
        store.borrow_str(start + 1),
        foo_s,
        "get_unchecked({}) should == '{foo_s}'",
        start + 1
    );
}

#[test]
fn stringstore_test_unique_store_shared() {
    let foo_s: &'static str = "foo";
    let mut store: Arc<UniqueStrStore> = UniqueStrStore::new_with_capacity(10).shared();
    let stored: u32 = Arc::get_mut(&mut store).unwrap().insert_or_get(HELLO).idx();
    let start: u32 = LATIN1_NUM;

    assert_eq!(store.len(), start as usize + 1, "Store length should be {}", start + 1);
    assert!(store.contains(HELLO), "Store does not contain '{HELLO}': {store:?}");

    let again: u32 = Arc::get_mut(&mut store).unwrap().insert_or_get(HELLO).idx();
    let foo: u32 = Arc::get_mut(&mut store).unwrap().insert_or_get(foo_s).idx();
    assert_eq!(store.len(), start as usize + 2, "Store length should be {}", start + 2);

    assert_eq!(stored, start, "'{HELLO}' idx should be {start}: {stored:?}");
    assert_eq!(again, start, "Second '{HELLO}!' idx should be again {start}: {again:?}");
    assert_eq!(foo, start + 1, "'{foo_s}' idx should be {}: {foo:?}", start + 1);

    let stored: StoredStr = store.get_ref(HELLO).unwrap();
    let again: StoredStr = store.get_ref(HELLO).unwrap();
    let foo: StoredStr = store.get_ref(foo_s).unwrap();
    assert_eq!(stored.idx(), start, "'{HELLO}' idx should be {start}: {stored:?}");
    assert_eq!(again.idx(), start, "Second '{HELLO}!' idx should be again {start}: {again:?}");
    assert_eq!(foo.idx(), start + 1, "'{foo_s}' idx should be {}: {foo:?}", start + 1);

    assert_eq!(stored.as_ref(), HELLO, "as_ref() should == '{HELLO}': {stored:?}");
    assert_eq!(stored, again, "StoredStr instances should be equal: {stored:?} != {again:?}");
    assert_eq!(store.get(start).unwrap(), HELLO, "get({start}) should == '{HELLO}'");
    assert_eq!(
        store.get_raw(start + 1),
        foo_s,
        "get_unchecked({}) should == '{foo_s}'",
        start + 1
    );
}

#[test]
fn what_is_inserted_is_read_back() {
    let mut store = UniqueStrStore::new();
    let strings = ["ab", "", "x", "\u{e9}", "\u{20ac}", "a longer string", "\0\0", "ab "];
    for s in strings {
        let i = store.insert(s);
        assert_eq!(store.get(i).unwrap(), s);
        assert_eq!(store.borrow_str(i), s);
        assert_eq!(store.idx(s), Some(i));
        assert!(store.contains(s));
    }
    store.validate_contents().unwrap();
}

#[test]
fn first_string_gets_the_first_free_index() {
    let mut store = UniqueStrStore::default();
    assert_eq!(store.len(), 256);
    assert_eq!(store.insert(HELLO), 256);
    assert_eq!(store.insert("foo"), 257);
    assert_eq!(store.insert(HELLO), 256);
    assert_eq!(store.len(), 258);
    assert_eq!(store.borrow_str(257), "foo");
    store.validate_contents().expect("Store validation failed");
}

#[test]
fn indices_are_stable_and_strings_held_once() {
    let mut store = UniqueStrStore::new_with_capacity(0);
    let strings: Vec<String> = (0..500).map(|i: u32| format!("string {i}")).collect();
    let indices: Vec<u32> = strings.iter().map(|s| store.insert(s)).collect();
    for (n, s) in strings.iter().enumerate() {
        assert_eq!(indices[n], LATIN1_NUM + n as u32);
        assert_eq!(store.insert(s), indices[n]);
        assert_eq!(store.get(indices[n]).unwrap(), s);
    }
    assert_eq!(store.len(), LATIN1_NUM as usize + 500);
    let all: HashSet<&str> = (0..store.len() as u32).map(|i| store.borrow_str(i)).collect();
    assert_eq!(all.len(), store.len());
    store.validate_contents().unwrap();
}

#[test]
fn latin1_is_reserved() {
    let mut store = UniqueStrStore::new();
    assert_eq!(store.insert(""), 0);
    assert_eq!(store.get(0).unwrap(), "");
    for code in 1..256u32 {
        let s = char::from_u32(code).unwrap().to_string();
        assert_eq!(store.idx(&s), Some(code));
        assert_eq!(store.insert(&s), code);
        assert_eq!(store.get(code).unwrap(), s);
    }
    assert_eq!(store.insert("\u{e9}"), 233);
    assert_eq!(store.len(), 256);
    // the first character past ISO-8859-1 is stored as any other string
    assert_eq!(store.idx("\u{100}"), None);
    assert_eq!(store.insert("\u{100}"), 256);
}

#[test]
fn nul_shares_the_index_of_the_empty_string() {
    let mut store = UniqueStrStore::new();
    assert_eq!(store.insert("\0"), 0);
    assert_eq!(store.idx("\0"), Some(0));
    assert_eq!(store.get(0).unwrap(), "");
}

#[test]
fn first_code_point() {
    assert_eq!(return_iso8859_1_cp("abc"), Some(97));
    assert_eq!(return_iso8859_1_cp("\u{ff}x"), Some(255));
    assert_eq!(return_iso8859_1_cp("\u{100}x"), None);
    assert_eq!(return_iso8859_1_cp("\0"), Some(0));
}

#[test]
fn get_out_of_bounds() {
    let mut store = UniqueStrStore::new();
    assert_eq!(
        store.get(256),
        Err(StringStoreError::IndexOutOfBounds { idx: 256, max: 255 })
    );
    store.insert(HELLO);
    assert_eq!(store.get(256), Ok(HELLO));
    assert_eq!(
        store.get(u32::MAX),
        Err(StringStoreError::IndexOutOfBounds { idx: u32::MAX, max: 256 })
    );
}

#[test]
fn unknown_strings_are_not_found() {
    let mut store = UniqueStrStore::new();
    assert!(!store.contains(HELLO));
    assert_eq!(store.idx(HELLO), None);
    assert!(store.get_ref(HELLO).is_none());
    assert!(!store.is_collision(HELLO));
    store.insert("other");
    assert!(!store.contains(HELLO));
    assert!(!store.is_collision("other"));
}

#[test]
fn insertions_that_check() {
    let mut store = UniqueStrStore::new();
    assert_eq!(store.try_insert(HELLO), Ok(256));
    assert_eq!(store.try_insert(HELLO), Ok(256));
    assert_eq!(store.try_insert("z"), Ok(122));
    assert_eq!(store.checked_insert("foo"), Some(Ok(257)));
    assert_eq!(store.checked_insert("foo"), Some(Ok(257)));
    assert_eq!(store.insert_unchecked("bar"), Ok(258));
    assert_eq!(store.insert_unchecked("bar"), Ok(258));
    assert_eq!(store.checked_insert_or_get("baz").unwrap().idx(), 259);
    assert_eq!(store.checked_insert_or_get("").unwrap().idx(), 0);
    assert_eq!(*store.insert_or_get("baz"), *"baz");
    assert_eq!(*store.checked_insert_or_get("foo").unwrap(), *"foo");
    assert_eq!(*store.insert_or_get("\0"), *"");
    assert!(store.admits(&vec!["foo".to_string(), "new".to_string(), "new".to_string()]));
    assert_eq!(store.len(), 260);
    store.validate_contents().unwrap();
}

#[test]
fn strings_in_their_order() {
    let mut store = UniqueStrStore::new();
    store.insert("one");
    store.insert("x");
    store.insert("two");
    let inserted: Vec<&str> = store.inserted().iter().map(|s| s.as_str()).collect();
    assert_eq!(inserted, vec!["one", "two"]);
    let reserved = store.reserved_strings();
    assert_eq!(reserved.len(), 256);
    assert_eq!((reserved[0].as_str(), reserved[65].as_str()), ("", "A"));
}

#[test]
fn index_load_counts_the_strings() {
    let mut store = UniqueStrStore::new_with_capacity(64);
    store.insert("a string");
    store.insert("another string");
    let (entries, capacity) = store.index_load();
    assert_eq!(entries, 2);
    assert!(capacity >= 64);
    assert_eq!(stringstore::index::footprint(2, 5), Some((40, 60)));
    assert_eq!(stringstore::index::footprint(0, 3), Some((0, 60)));
    assert_eq!(stringstore::index::footprint(0, 0), None);
}

#[test]
fn handles_stand_for_their_strings() {
    let mut store = UniqueStrStore::new();
    store.insert("beta");
    store.insert("alpha");
    let alpha = store.get_ref("alpha").unwrap();
    let beta = store.get_ref("beta").unwrap();
    assert_eq!(alpha.idx(), 257);
    assert_eq!(alpha.cloned(), "alpha");
    assert_eq!(alpha.len(), 5);
    assert_eq!(alpha.store().len(), 258);
    assert!(alpha == "alpha" && "alpha" == alpha);
    assert!(alpha != beta);
    assert_eq!(alpha.clone(), alpha);
    assert!(alpha < beta);
    assert_eq!(alpha.cmp(&beta), Ordering::Less);
    assert_eq!(beta.cmp(&alpha), Ordering::Greater);
    assert_eq!(alpha.cmp(&alpha.clone()), Ordering::Equal);
    let (a, b): (StoredStrPtr, StoredStrPtr) = (alpha.as_ptr(), beta.as_ptr());
    assert_eq!(a, store.get_ptr(257));
    assert!(a == "alpha" && "alpha" == a);
    assert!(b > a);
    assert_eq!(a.cmp(&b), Ordering::Less);
    assert_eq!(a.to_string(), "alpha");
    assert_eq!(a.as_ref(), "alpha");
    assert_eq!(<&str>::from(&a), "alpha");
    assert_eq!(u32::from(beta.clone()), 256);
    assert_eq!(<&str>::from(beta), "beta");
}

#[test]
fn pointers_are_equal_where_they_point_to_one_place() {
    let mut store = UniqueStrStore::new();
    let mut other = UniqueStrStore::new();
    let (i, j) = (store.insert("alpha"), other.insert("alpha"));
    let k = store.insert("beta");
    let p = store.get_ptr(i);
    assert_eq!(p, p.clone());
    assert_eq!(p, store.get_ptr(i));
    assert_eq!(store.get_ptr(65), store.get_ref("A").unwrap().as_ptr());
    assert_ne!(p, store.get_ptr(k));
    // the same text in another store is another string
    assert_ne!(p, other.get_ptr(j));
    assert_eq!(p.cmp(&other.get_ptr(j)), Ordering::Equal);
    assert!(p == "alpha" && other.get_ptr(j) == "alpha");
}

#[test]
fn pointers_keep_their_strings_while_the_store_grows() {
    let mut store = UniqueStrStore::new_with_capacity(0);
    let i = store.insert("kept");
    let by_index = store.get_ptr(i);
    let by_text = store.get_ref("kept").unwrap().as_ptr();
    for n in 0..2000 {
        store.insert(&format!("later {n}"));
    }
    assert_eq!(by_index.as_str(), "kept");
    assert_eq!(by_text.as_str(), "kept");
    assert_eq!(store.get(i).unwrap(), by_index.as_str());
    // the string has not moved
    assert_eq!(by_index, store.get_ptr(i));
}

#[test]
fn handles_in_debug_output() {
    let mut store = UniqueStrStore::new();
    store.insert("say \"hi\"\n");
    let stored = store.get_ref("say \"hi\"\n").unwrap();
    assert_eq!(format!("{stored:?}"), r#"StoredStr(256: "say \"hi\"\n")"#);
    assert_eq!(stored.debug_text(), format!("{stored:?}"));
    let ptr = stored.as_ptr();
    let shown = format!("{ptr:?}");
    assert!(shown.starts_with("StoredStrPtr(0x"));
    assert!(shown.ends_with(r#" -> "say \"hi\"\n")"#));
    assert_eq!(ptr.debug_text(), shown);
    let address = format!("StoredStrPtr(0x{:x} -> ", ptr.as_str().as_ptr() as usize);
    assert!(shown.starts_with(&address));
}

#[test]
fn handles_hash_as_their_strings() {
    let mut store = UniqueStrStore::new();
    store.insert("alpha");
    store.insert("beta");
    let mut seen: HashSet<StoredStr> = HashSet::new();
    assert!(seen.insert(store.get_ref("alpha").unwrap()));
    assert!(seen.insert(store.get_ref("beta").unwrap()));
    assert!(!seen.insert(store.get_ref("alpha").unwrap()));
    let mut pointers: HashSet<StoredStrPtr> = HashSet::new();
    assert!(pointers.insert(store.get_ptr(256)));
    assert!(!pointers.insert(store.get_ptr(256)));
}

#[test]
fn order_is_that_of_strings() {
    let texts = ["", "a", "aa", "ab", "b", "B", "\u{e9}", "\u{ffff}", "\u{1f600}", "a\u{1f600}"];
    let mut store = UniqueStrStore::new();
    let indices: Vec<u32> = texts.iter().map(|s| store.insert(s)).collect();
    for (n, a) in texts.iter().enumerate() {
        for (m, b) in texts.iter().enumerate() {
            let (p, q) = (store.get_ptr(indices[n]), store.get_ptr(indices[m]));
            assert_eq!(p.cmp(&q), std::cmp::Ord::cmp(a, b));
            assert_eq!(p.partial_cmp(&q), a.partial_cmp(b));
        }
    }
}

#[test]
fn compact_references() {
    let mut store = UniqueStrStore::new();
    let word = CompactStr(store.insert("word"));
    assert_eq!(word.idx(), 256);
    assert_eq!(word.get(&store), "word");
    assert_eq!(word.to_string(&store), "word");
    let stars = Character(CompactStr(store.insert("*")), 3);
    assert_eq!(stars.idx(), 42);
    assert_eq!(stars.num(), 3);
    assert_eq!(stars.get(&store), "*");
    assert_eq!(stars.to_string(&store), "***");
    assert_eq!(Character(CompactStr(42), 0).to_string(&store), "");
}
